//! The model of a dictionary that is staged before it is written: entries
//! kept in key order, each value already encoded on its own.
use vstd::prelude::*;
use crate::Error;
use crate::encoder::EncoderView;
use crate::grammar::{is_value, literals_ok};
use crate::keys::{key_lt, lemma_key_lt_irreflexive, lemma_key_lt_total, lemma_key_lt_transitive};
use crate::state_tracker::Tok;

verus! {

/// One staged entry: a key, and the tokens of its value.
pub struct Staged {
    pub key: Seq<u8>,
    pub value: Seq<Tok>,
}

/// `entries` with `entry` put in front of the entries whose keys come after
/// its key.
pub open spec fn insert_sorted(entries: Seq<Staged>, entry: Staged) -> Seq<Staged>
    decreases entries.len(),
{
    if entries.len() > 0 && key_lt(entry.key, entries.last().key) {
        insert_sorted(entries.drop_last(), entry).push(entries.last())
    } else {
        entries.push(entry)
    }
}

/// The entries that staging `pairs` one after another, in the order in which
/// they stand, leaves behind.
pub open spec fn stage_all(pairs: Seq<Staged>) -> Seq<Staged>
    decreases pairs.len(),
{
    if pairs.len() == 0 {
        Seq::empty()
    } else {
        insert_sorted(stage_all(pairs.drop_last()), pairs.last())
    }
}

/// No two of `pairs` have the same key.
pub open spec fn distinct_keys(pairs: Seq<Staged>) -> bool {
    forall|i: int, j: int|
        0 <= i < j < pairs.len() ==> (#[trigger] pairs[i]).key != (#[trigger] pairs[j]).key
}

/// `a` and `b` hold the same entries, in whatever order.
pub open spec fn same_entries(a: Seq<Staged>, b: Seq<Staged>) -> bool {
    forall|x: Staged| a.contains(x) <==> b.contains(x)
}

/// The keys grow strictly from each entry to the next.
pub open spec fn sorted(entries: Seq<Staged>) -> bool {
    forall|i: int, j: int|
        0 <= i < j < entries.len() ==> key_lt(#[trigger] entries[i].key, #[trigger] entries[j].key)
}

/// What a staging builder holds.
pub struct StagingView {
    /// The entries staged so far, in key order.
    pub entries: Seq<Staged>,
    /// The first failure, if there was one.
    pub error: Option<Error>,
    /// The depth budget that each value is given.
    pub remaining_depth: nat,
}

impl StagingView {
    /// A builder that holds nothing.
    pub open spec fn empty(remaining_depth: nat) -> StagingView {
        StagingView { entries: Seq::empty(), error: None, remaining_depth }
    }

    /// The keys are strictly increasing, so no key occurs twice, and every
    /// value is exactly one whole value.
    pub open spec fn wf(self) -> bool {
        &&& sorted(self.entries)
        &&& forall|i: int|
            0 <= i < self.entries.len() ==> is_value((#[trigger] self.entries[i]).value)
                && literals_ok(self.entries[i].value)
    }

    /// The encoder that the value scope of a pair writes to: a new one, with
    /// the depth budget of the dictionary's values.
    pub open spec fn isolated(self) -> EncoderView {
        EncoderView::fresh(self.remaining_depth)
    }

    /// Whether `key` is staged already.
    pub open spec fn has_key(self, key: Seq<u8>) -> bool {
        exists|i: int| 0 <= i < self.entries.len() && (#[trigger] self.entries[i]).key == key
    }

    /// The builder with `e` as its error.
    pub open spec fn fail(self, e: Error) -> StagingView {
        StagingView { error: Some(e), ..self }
    }

    /// The builder after a value scope for `key` has ended: `child` is the
    /// encoder that the scope wrote to, `written` whether the scope used its
    /// single-value builder, `built` what the scope returned. The scope's own
    /// failure comes first, then a value that was never written, then whatever
    /// keeps the child from being one finished value.
    pub open spec fn stage(
        self,
        key: Seq<u8>,
        child: EncoderView,
        written: bool,
        built: Result<(), Error>,
    ) -> StagingView {
        match built {
            Err(e) => self.fail(e),
            Ok(_) => if !written {
                self.fail(Error::NoValueEmitted)
            } else {
                match child.machine.observe_eof().error {
                    Some(e) => self.fail(e),
                    None => StagingView {
                        entries: insert_sorted(self.entries, Staged { key, value: child.tokens }),
                        ..self
                    },
                }
            },
        }
    }

    /// What an operation that left the builder in this state returns.
    pub open spec fn result(self) -> Result<(), Error> {
        match self.error {
            Some(e) => Err(e),
            None => Ok(()),
        }
    }
}

/// Where every entry from `at` on has a key after `entry`'s, and the entry
/// before `at` has not, the sorted insertion puts `entry` at `at`.
pub proof fn lemma_insert_sorted_at(entries: Seq<Staged>, entry: Staged, at: int)
    requires
        0 <= at <= entries.len(),
        forall|j: int| at <= j < entries.len() ==> key_lt(entry.key, (#[trigger] entries[j]).key),
        at > 0 ==> !key_lt(entry.key, entries[at - 1].key),
    ensures
        insert_sorted(entries, entry) == entries.insert(at, entry),
    decreases entries.len() - at,
{
    if at == entries.len() {
        assert(entries.insert(at, entry) =~= entries.push(entry));
    } else {
        lemma_insert_sorted_at(entries.drop_last(), entry, at);
        assert(entries.drop_last().insert(at, entry).push(entries.last()) =~= entries.insert(
            at,
            entry,
        ));
    }
}

/// Inserting a new key at its place keeps the keys strictly increasing.
pub proof fn lemma_insert_keeps_sorted(entries: Seq<Staged>, entry: Staged, at: int)
    requires
        sorted(entries),
        0 <= at <= entries.len(),
        forall|j: int| at <= j < entries.len() ==> key_lt(entry.key, (#[trigger] entries[j]).key),
        at > 0 ==> key_lt(entries[at - 1].key, entry.key),
    ensures
        sorted(entries.insert(at, entry)),
{
    let after = entries.insert(at, entry);
    assert forall|i: int, j: int| 0 <= i < j < after.len() implies key_lt(
        #[trigger] after[i].key,
        #[trigger] after[j].key,
    ) by {
        if j < at {
            assert(after[i] == entries[i] && after[j] == entries[j]);
        } else if j == at {
            assert(after[i] == entries[i]);
            if i < at - 1 {
                lemma_key_lt_transitive(entries[i].key, entries[at - 1].key, entry.key);
            }
        } else if i == at {
            assert(after[j] == entries[j - 1]);
        } else if i > at {
            assert(after[i] == entries[i - 1] && after[j] == entries[j - 1]);
        } else {
            assert(after[i] == entries[i] && after[j] == entries[j - 1]);
        }
    }
}

/// In sorted entries, a key that lies strictly between two neighbours, or
/// before the first or after the last entry, is not staged.
pub proof fn lemma_gap_has_no_key(entries: Seq<Staged>, key: Seq<u8>, at: int)
    requires
        sorted(entries),
        0 <= at <= entries.len(),
        forall|j: int| at <= j < entries.len() ==> key_lt(key, (#[trigger] entries[j]).key),
        at > 0 ==> key_lt(entries[at - 1].key, key),
    ensures
        forall|i: int| 0 <= i < entries.len() ==> (#[trigger] entries[i]).key != key,
{
    assert forall|i: int| 0 <= i < entries.len() implies (#[trigger] entries[i]).key != key by {
        lemma_key_lt_irreflexive(key);
        if i < at - 1 {
            lemma_key_lt_transitive(entries[i].key, entries[at - 1].key, key);
        }
        lemma_key_lt_total(entries[i].key, key);
    }
}

/// The sorted insertion holds what was there before, and the new entry.
pub proof fn lemma_insert_sorted_contains(entries: Seq<Staged>, entry: Staged, x: Staged)
    ensures
        insert_sorted(entries, entry).contains(x) <==> entries.contains(x) || x == entry,
        insert_sorted(entries, entry).len() == entries.len() + 1,
    decreases entries.len(),
{
    let after = insert_sorted(entries, entry);
    if entries.len() > 0 && key_lt(entry.key, entries.last().key) {
        let front = entries.drop_last();
        let inner = insert_sorted(front, entry);
        lemma_insert_sorted_contains(front, entry, x);
        assert(after == inner.push(entries.last()));
        if after.contains(x) {
            let i = choose|i: int| 0 <= i < after.len() && after[i] == x;
            if i < inner.len() {
                assert(inner[i] == x);
                assert(inner.contains(x));
                if front.contains(x) {
                    let j = choose|j: int| 0 <= j < front.len() && front[j] == x;
                    assert(entries[j] == x);
                }
            } else {
                assert(entries[entries.len() - 1] == x);
            }
        }
        if entries.contains(x) {
            let j = choose|j: int| 0 <= j < entries.len() && entries[j] == x;
            if j < front.len() {
                assert(front[j] == x);
                assert(front.contains(x));
                let i = choose|i: int| 0 <= i < inner.len() && inner[i] == x;
                assert(after[i] == x);
            } else {
                assert(after[after.len() - 1] == x);
            }
        }
        if x == entry {
            assert(inner.contains(x));
            let i = choose|i: int| 0 <= i < inner.len() && inner[i] == x;
            assert(after[i] == x);
        }
    } else {
        assert(after == entries.push(entry));
        if after.contains(x) {
            let i = choose|i: int| 0 <= i < after.len() && after[i] == x;
            if i < entries.len() {
                assert(entries[i] == x);
            }
        }
        if entries.contains(x) {
            let j = choose|j: int| 0 <= j < entries.len() && entries[j] == x;
            assert(after[j] == x);
        }
        if x == entry {
            assert(after[after.len() - 1] == x);
        }
    }
}

/// Sorted insertion of a key that is not there keeps the keys strictly
/// increasing.
pub proof fn lemma_insert_sorted_is_sorted(entries: Seq<Staged>, entry: Staged)
    requires
        sorted(entries),
        forall|i: int| 0 <= i < entries.len() ==> (#[trigger] entries[i]).key != entry.key,
    ensures
        sorted(insert_sorted(entries, entry)),
    decreases entries.len(),
{
    let after = insert_sorted(entries, entry);
    if entries.len() > 0 && key_lt(entry.key, entries.last().key) {
        let front = entries.drop_last();
        let last = entries.last();
        let inner = insert_sorted(front, entry);
        assert(sorted(front)) by {
            assert forall|i: int, j: int| 0 <= i < j < front.len() implies key_lt(
                #[trigger] front[i].key,
                #[trigger] front[j].key,
            ) by {
                assert(front[i] == entries[i] && front[j] == entries[j]);
            }
        }
        assert forall|i: int| 0 <= i < front.len() implies (#[trigger] front[i]).key
            != entry.key by {
            assert(front[i] == entries[i]);
        }
        lemma_insert_sorted_is_sorted(front, entry);
        assert forall|i: int, j: int| 0 <= i < j < after.len() implies key_lt(
            #[trigger] after[i].key,
            #[trigger] after[j].key,
        ) by {
            if j < inner.len() {
                assert(after[i] == inner[i] && after[j] == inner[j]);
            } else {
                assert(after[j] == last);
                assert(after[i] == inner[i]);
                lemma_insert_sorted_contains(front, entry, inner[i]);
                assert(inner.contains(inner[i]));
                if inner[i] != entry {
                    let k = choose|k: int| 0 <= k < front.len() && front[k] == inner[i];
                    assert(entries[k] == inner[i]);
                    assert(key_lt(entries[k].key, entries[entries.len() - 1].key));
                }
            }
        }
    } else {
        assert forall|i: int, j: int| 0 <= i < j < after.len() implies key_lt(
            #[trigger] after[i].key,
            #[trigger] after[j].key,
        ) by {
            if j < entries.len() {
                assert(after[i] == entries[i] && after[j] == entries[j]);
            } else {
                assert(after[j] == entry);
                assert(after[i] == entries[i]);
                let last = entries.last();
                lemma_key_lt_total(entry.key, last.key);
                assert(entries[entries.len() - 1].key != entry.key);
                assert(key_lt(last.key, entry.key));
                if i < entries.len() - 1 {
                    assert(key_lt(entries[i].key, entries[entries.len() - 1].key));
                    lemma_key_lt_transitive(entries[i].key, last.key, entry.key);
                }
            }
        }
    }
}

/// Staging pairs with distinct keys, in whatever order, leaves all of them
/// behind, each once, in key order.
pub proof fn lemma_stage_all(pairs: Seq<Staged>)
    requires
        distinct_keys(pairs),
    ensures
        sorted(stage_all(pairs)),
        same_entries(stage_all(pairs), pairs),
        stage_all(pairs).len() == pairs.len(),
    decreases pairs.len(),
{
    if pairs.len() > 0 {
        let front = pairs.drop_last();
        let last = pairs.last();
        assert(distinct_keys(front)) by {
            assert forall|i: int, j: int| 0 <= i < j < front.len() implies (#[trigger] front[i]).key
                != (#[trigger] front[j]).key by {
                assert(front[i] == pairs[i] && front[j] == pairs[j]);
            }
        }
        lemma_stage_all(front);
        let staged = stage_all(front);
        assert forall|i: int| 0 <= i < staged.len() implies (#[trigger] staged[i]).key
            != last.key by {
            assert(staged.contains(staged[i]));
            assert(front.contains(staged[i]));
            let k = choose|k: int| 0 <= k < front.len() && front[k] == staged[i];
            assert(pairs[k] == staged[i]);
            assert(pairs[k].key != pairs[pairs.len() - 1].key);
        }
        lemma_insert_sorted_is_sorted(staged, last);
        assert forall|x: Staged| stage_all(pairs).contains(x) <==> pairs.contains(x) by {
            lemma_insert_sorted_contains(staged, last, x);
            if pairs.contains(x) {
                let k = choose|k: int| 0 <= k < pairs.len() && pairs[k] == x;
                if k < front.len() {
                    assert(front[k] == x);
                    assert(front.contains(x));
                }
            }
            if front.contains(x) {
                let k = choose|k: int| 0 <= k < front.len() && front[k] == x;
                assert(pairs[k] == x);
            }
            if x == last {
                assert(pairs[pairs.len() - 1] == x);
            }
        }
        lemma_insert_sorted_contains(staged, last, last);
    }
}

/// There is one way only to put entries in key order.
pub proof fn lemma_sorted_is_unique(a: Seq<Staged>, b: Seq<Staged>)
    requires
        sorted(a),
        sorted(b),
        same_entries(a, b),
    ensures
        a == b,
    decreases a.len(),
{
    if a.len() == 0 {
        if b.len() > 0 {
            assert(b.contains(b[0]));
            assert(a.contains(b[0]));
        }
        assert(a =~= b);
    } else {
        let la = a.last();
        assert(a[a.len() - 1] == la);
        assert(a.contains(la));
        assert(b.contains(la));
        let lb = b.last();
        assert(b[b.len() - 1] == lb);
        assert(b.contains(lb));
        assert(a.contains(lb));
        let i = choose|i: int| 0 <= i < a.len() && a[i] == lb;
        let j = choose|j: int| 0 <= j < b.len() && b[j] == la;
        // each last entry has the greatest key of its sequence
        if i < a.len() - 1 {
            assert(key_lt(a[i].key, a[a.len() - 1].key));
            if j < b.len() - 1 {
                assert(key_lt(b[j].key, b[b.len() - 1].key));
                lemma_key_lt_total(la.key, lb.key);
            }
        }
        assert(la == lb);
        let fa = a.drop_last();
        let fb = b.drop_last();
        assert(sorted(fa)) by {
            assert forall|p: int, q: int| 0 <= p < q < fa.len() implies key_lt(
                #[trigger] fa[p].key,
                #[trigger] fa[q].key,
            ) by {
                assert(fa[p] == a[p] && fa[q] == a[q]);
            }
        }
        assert(sorted(fb)) by {
            assert forall|p: int, q: int| 0 <= p < q < fb.len() implies key_lt(
                #[trigger] fb[p].key,
                #[trigger] fb[q].key,
            ) by {
                assert(fb[p] == b[p] && fb[q] == b[q]);
            }
        }
        assert forall|x: Staged| fa.contains(x) <==> fb.contains(x) by {
            lemma_front_contains(a, x);
            lemma_front_contains(b, x);
        }
        lemma_sorted_is_unique(fa, fb);
        assert(a =~= fa.push(la));
        assert(b =~= fb.push(lb));
    }
}

/// In entries in key order, all but the last are the entries that are not the
/// last.
proof fn lemma_front_contains(entries: Seq<Staged>, x: Staged)
    requires
        sorted(entries),
        entries.len() > 0,
    ensures
        entries.drop_last().contains(x) <==> entries.contains(x) && x != entries.last(),
{
    let front = entries.drop_last();
    if front.contains(x) {
        let k = choose|k: int| 0 <= k < front.len() && front[k] == x;
        assert(entries[k] == x);
        assert(key_lt(entries[k].key, entries[entries.len() - 1].key));
        lemma_key_lt_irreflexive(x.key);
    }
    if entries.contains(x) && x != entries.last() {
        let k = choose|k: int| 0 <= k < entries.len() && entries[k] == x;
        assert(front[k] == x);
    }
}

/// Staging sorts: whatever the order in which pairs with distinct keys are
/// staged, what is left behind is those pairs in key order.
pub proof fn lemma_staging_sorts(pairs: Seq<Staged>, in_order: Seq<Staged>)
    requires
        distinct_keys(pairs),
        sorted(in_order),
        same_entries(pairs, in_order),
    ensures
        stage_all(pairs) == in_order,
{
    lemma_stage_all(pairs);
    lemma_sorted_is_unique(stage_all(pairs), in_order);
}

} // verus!
