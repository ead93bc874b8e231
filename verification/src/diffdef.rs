//! How the definitions of a file changed between two extractions of it,
//! judged by identity and fingerprint alone.
use vstd::prelude::*;

use crate::fingerprint;
use crate::fingerprint::same_hash;
use crate::graph::DefKind;
use crate::language;
use crate::language::{DefView, ExtractedDef, Extraction};
use crate::text;
use crate::text::same;

verus! {

/// How one definition changed.
#[derive(Debug, Clone, PartialEq, Eq)]
pub enum DefChange {
    /// Only the new side has it.
    Added { new_idx: usize },
    /// Only the old side had it.
    Removed { old_name: String, old_kind: DefKind },
    /// Its body changed and its signature did not.
    BodyChanged { new_idx: usize },
    /// Its signature changed.
    SigChanged { new_idx: usize },
    /// The file's loose top-level code changed.
    ModuleInitChanged,
}

/// What a [`DefChange`] says.
pub enum ChangeView {
    Added { new_idx: usize },
    Removed { old_name: Seq<char>, old_kind: DefKind },
    BodyChanged { new_idx: usize },
    SigChanged { new_idx: usize },
    ModuleInitChanged,
}

impl View for DefChange {
    type V = ChangeView;

    open spec fn view(&self) -> ChangeView {
        match self {
            DefChange::Added { new_idx } => ChangeView::Added { new_idx: *new_idx },
            DefChange::Removed { old_name, old_kind } => ChangeView::Removed {
                old_name: old_name@,
                old_kind: *old_kind,
            },
            DefChange::BodyChanged { new_idx } => ChangeView::BodyChanged { new_idx: *new_idx },
            DefChange::SigChanged { new_idx } => ChangeView::SigChanged { new_idx: *new_idx },
            DefChange::ModuleInitChanged => ChangeView::ModuleInitChanged,
        }
    }
}

/// What a list of changes says.
pub open spec fn change_views(v: Seq<DefChange>) -> Seq<ChangeView> {
    v.map_values(|c: DefChange| c@)
}

/// What a definition is matched by across extractions: its kind, and its
/// chain of test names or else its own name.
pub type Key = (DefKind, Seq<Seq<char>>);

/// What a definition is matched by.
pub open spec fn key_of(d: DefView) -> Key {
    (
        d.kind,
        match d.test_id {
            Some(chain) => chain,
            None => seq![d.name],
        },
    )
}

/// The positions of the definitions with key `key`, in order.
pub open spec fn positions(defs: Seq<DefView>, key: Key) -> Seq<usize>
    decreases defs.len(),
{
    if defs.len() == 0 {
        Seq::empty()
    } else {
        let before = positions(defs.drop_last(), key);
        if key_of(defs.last()) == key {
            before.push((defs.len() - 1) as usize)
        } else {
            before
        }
    }
}

/// How a definition that both sides have changed: not at all, or once.
pub open spec fn pair_change(o: DefView, n: DefView, new_idx: usize) -> Seq<ChangeView> {
    if o.sig_hash != n.sig_hash {
        if n.kind == DefKind::ModuleInit {
            seq![ChangeView::ModuleInitChanged]
        } else {
            seq![ChangeView::SigChanged { new_idx }]
        }
    } else if n.kind != DefKind::ModuleInit && o.body_hash != n.body_hash {
        seq![ChangeView::BodyChanged { new_idx }]
    } else {
        Seq::empty()
    }
}

/// The changes of the first `k` pairs of same-key definitions.
pub open spec fn pair_changes(
    old: Seq<DefView>,
    new: Seq<DefView>,
    olds: Seq<usize>,
    news: Seq<usize>,
    k: int,
) -> Seq<ChangeView>
    decreases k,
{
    if k <= 0 {
        Seq::empty()
    } else {
        pair_changes(old, new, olds, news, k - 1) + pair_change(
            old[olds[k - 1] as int],
            new[news[k - 1] as int],
            news[k - 1],
        )
    }
}

/// The definitions at `news` as added ones.
pub open spec fn added_changes(news: Seq<usize>) -> Seq<ChangeView> {
    news.map_values(|i: usize| ChangeView::Added { new_idx: i })
}

/// The definitions at `olds` as removed ones.
pub open spec fn removed_changes(old: Seq<DefView>, olds: Seq<usize>) -> Seq<ChangeView> {
    olds.map_values(
        |i: usize|
            ChangeView::Removed { old_name: old[i as int].name, old_kind: old[i as int].kind },
    )
}

/// The changes among the definitions with one key: they pair up in order,
/// and what is left over on one side was added or removed.
pub open spec fn key_changes(
    old: Seq<DefView>,
    new: Seq<DefView>,
    key: Key,
) -> Seq<ChangeView> {
    let olds = positions(old, key);
    let news = positions(new, key);
    let paired = if olds.len() <= news.len() {
        olds.len()
    } else {
        news.len()
    };
    pair_changes(old, new, olds, news, paired as int) + added_changes(news.skip(paired as int))
        + removed_changes(old, olds.skip(paired as int))
}

/// Does some definition have this key?
pub open spec fn has_key(defs: Seq<DefView>, key: Key) -> bool {
    exists|i: int| 0 <= i < defs.len() && key_of(#[trigger] defs[i]) == key
}

/// The changes by key, for the keys that the first `k` new definitions
/// bring up, in the order in which they do.
pub open spec fn new_part(old: Seq<DefView>, new: Seq<DefView>, k: int) -> Seq<ChangeView>
    decreases k,
{
    if k <= 0 {
        Seq::empty()
    } else {
        let key = key_of(new[k - 1]);
        let before = new_part(old, new, k - 1);
        if has_key(new.take(k - 1), key) {
            before
        } else {
            before + key_changes(old, new, key)
        }
    }
}

/// The changes by key, for the keys that the first `k` old definitions bring
/// up and no new one has.
pub open spec fn old_part(old: Seq<DefView>, new: Seq<DefView>, k: int) -> Seq<ChangeView>
    decreases k,
{
    if k <= 0 {
        Seq::empty()
    } else {
        let key = key_of(old[k - 1]);
        let before = old_part(old, new, k - 1);
        if has_key(new, key) || has_key(old.take(k - 1), key) {
            before
        } else {
            before + key_changes(old, new, key)
        }
    }
}

/// Every change between two lists of definitions.
pub open spec fn diff(old: Seq<DefView>, new: Seq<DefView>) -> Seq<ChangeView> {
    new_part(old, new, new.len() as int) + old_part(old, new, old.len() as int)
}

/// The new definition that a change is about.
pub open spec fn change_index(c: ChangeView) -> Option<usize> {
    match c {
        ChangeView::Added { new_idx } => Some(new_idx),
        ChangeView::BodyChanged { new_idx } => Some(new_idx),
        ChangeView::SigChanged { new_idx } => Some(new_idx),
        ChangeView::Removed { .. } => None,
        ChangeView::ModuleInitChanged => None,
    }
}

/// Every change that is about a new definition names one of `n`.
pub open spec fn indices_within(changes: Seq<ChangeView>, n: int) -> bool {
    forall|i: int|
        0 <= i < changes.len() ==> (change_index(#[trigger] changes[i]) matches Some(k) ==> k < n)
}

proof fn lemma_positions(defs: Seq<DefView>, key: Key)
    requires
        defs.len() <= usize::MAX,
    ensures
        positions(defs, key).len() <= defs.len(),
        forall|j: int|
            0 <= j < positions(defs, key).len() ==> (#[trigger] positions(defs, key)[j])
                < defs.len() && key_of(defs[positions(defs, key)[j] as int]) == key,
    decreases defs.len(),
{
    if defs.len() > 0 {
        lemma_positions(defs.drop_last(), key);
        let before = positions(defs.drop_last(), key);
        assert forall|j: int| 0 <= j < positions(defs, key).len() implies (
        #[trigger] positions(defs, key)[j]) < defs.len() && key_of(
            defs[positions(defs, key)[j] as int],
        ) == key by {
            if j < before.len() {
                assert(positions(defs, key)[j] == before[j]);
                assert(defs.drop_last()[before[j] as int] == defs[before[j] as int]);
            }
        }
    }
}

proof fn lemma_pair_indices(
    old: Seq<DefView>,
    new: Seq<DefView>,
    olds: Seq<usize>,
    news: Seq<usize>,
    k: int,
)
    requires
        0 <= k <= news.len(),
        forall|j: int| 0 <= j < news.len() ==> (#[trigger] news[j]) < new.len(),
    ensures
        indices_within(pair_changes(old, new, olds, news, k), new.len() as int),
    decreases k,
{
    if k > 0 {
        lemma_pair_indices(old, new, olds, news, k - 1);
        assert(news[k - 1] < new.len());
    }
}

proof fn lemma_key_indices(
    old: Seq<DefView>,
    new: Seq<DefView>,
    key: Key,
)
    requires
        new.len() <= usize::MAX,
    ensures
        indices_within(key_changes(old, new, key), new.len() as int),
{
    let olds = positions(old, key);
    let news = positions(new, key);
    lemma_positions(new, key);
    let paired: int = if olds.len() <= news.len() {
        olds.len() as int
    } else {
        news.len() as int
    };
    lemma_pair_indices(old, new, olds, news, paired);
    let added = added_changes(news.skip(paired));
    assert forall|i: int| 0 <= i < added.len() implies (change_index(#[trigger] added[i]) matches
        Some(k) ==> k < new.len()) by {
        assert(added[i] == ChangeView::Added { new_idx: news[paired + i] });
    }
}

proof fn lemma_new_indices(old: Seq<DefView>, new: Seq<DefView>, k: int)
    requires
        0 <= k <= new.len() <= usize::MAX,
    ensures
        indices_within(new_part(old, new, k), new.len() as int),
    decreases k,
{
    if k > 0 {
        lemma_new_indices(old, new, k - 1);
        lemma_key_indices(old, new, key_of(new[k - 1]));
    }
}

proof fn lemma_old_indices(old: Seq<DefView>, new: Seq<DefView>, k: int)
    requires
        0 <= k <= old.len(),
        new.len() <= usize::MAX,
    ensures
        indices_within(old_part(old, new, k), new.len() as int),
    decreases k,
{
    if k > 0 {
        lemma_old_indices(old, new, k - 1);
        lemma_key_indices(old, new, key_of(old[k - 1]));
    }
}

/// Every change that is about a new definition names one.
pub proof fn lemma_diff_indices(old: Seq<DefView>, new: Seq<DefView>)
    requires
        new.len() <= usize::MAX,
    ensures
        indices_within(diff(old, new), new.len() as int),
{
    lemma_new_indices(old, new, new.len() as int);
    lemma_old_indices(old, new, old.len() as int);
}

/// Do the two definitions have the same key?
fn same_key(a: &ExtractedDef, b: &ExtractedDef) -> (r: bool)
    ensures
        r == (key_of(a@) == key_of(b@)),
{
    if a.kind != b.kind {
        return false;
    }
    match (&a.test_id, &b.test_id) {
        (Some(x), Some(y)) => text::same_all(x, y),
        (Some(x), None) => {
            let r = x.len() == 1 && same(x[0].as_str(), b.name.as_str());
            proof {
                let v = text::views(x@);
                if r {
                    assert(v =~= seq![b.name@]);
                } else if v == seq![b.name@] {
                    assert(v.len() == 1);
                    assert(v[0] == b.name@);
                    assert(x@[0]@ == v[0]);
                }
            }
            r
        },
        (None, Some(y)) => {
            let r = y.len() == 1 && same(y[0].as_str(), a.name.as_str());
            proof {
                let v = text::views(y@);
                if r {
                    assert(v =~= seq![a.name@]);
                } else if v == seq![a.name@] {
                    assert(v.len() == 1);
                    assert(v[0] == a.name@);
                    assert(y@[0]@ == v[0]);
                }
            }
            r
        },
        (None, None) => {
            let r = same(a.name.as_str(), b.name.as_str());
            proof {
                if seq![a.name@] == seq![b.name@] {
                    assert(seq![a.name@][0] == seq![b.name@][0]);
                }
            }
            r
        },
    }
}

/// Do any of the first `k` definitions have the key of `like`?
fn any_same_key(defs: &Vec<ExtractedDef>, k: usize, like: &ExtractedDef) -> (r: bool)
    requires
        k <= defs@.len(),
    ensures
        r == has_key(language::def_views(defs@).take(k as int), key_of(like@)),
{
    let ghost all = language::def_views(defs@);
    let mut i: usize = 0;
    while i < k
        invariant
            i <= k <= defs@.len(),
            all == language::def_views(defs@),
            forall|j: int| 0 <= j < i ==> key_of(#[trigger] all[j]) != key_of(like@),
        decreases k - i,
    {
        assert(all[i as int] == defs@[i as int]@);
        if same_key(&defs[i], like) {
            assert(all.take(k as int)[i as int] == all[i as int]);
            return true;
        }
        i = i + 1;
    }
    assert forall|j: int| 0 <= j < all.take(k as int).len() implies key_of(
        #[trigger] all.take(k as int)[j],
    ) != key_of(like@) by {
        assert(all.take(k as int)[j] == all[j]);
    }
    false
}

/// The positions of the definitions with the key of `like`.
fn positions_of(defs: &Vec<ExtractedDef>, like: &ExtractedDef) -> (r: Vec<usize>)
    ensures
        r@ == positions(language::def_views(defs@), key_of(like@)),
{
    let ghost all = language::def_views(defs@);
    let mut out: Vec<usize> = Vec::new();
    let mut i: usize = 0;
    while i < defs.len()
        invariant
            i <= defs@.len(),
            all == language::def_views(defs@),
            out@ == positions(all.take(i as int), key_of(like@)),
        decreases defs@.len() - i,
    {
        assert(all.take(i + 1).drop_last() =~= all.take(i as int));
        assert(all.take(i + 1).last() == defs@[i as int]@);
        if same_key(&defs[i], like) {
            out.push(i);
        }
        i = i + 1;
    }
    assert(all.take(defs@.len() as int) =~= all);
    out
}

fn same_body(a: &Option<[u8; 32]>, b: &Option<[u8; 32]>) -> (r: bool)
    ensures
        r == (fingerprint::hash_view(*a) == fingerprint::hash_view(*b)),
{
    match (a, b) {
        (Some(x), Some(y)) => same_hash(x, y),
        (None, None) => true,
        _ => false,
    }
}

/// Adds the changes among the definitions that share the key of `like`.
fn add_key_changes(
    olden: &Vec<ExtractedDef>,
    newer: &Vec<ExtractedDef>,
    like: &ExtractedDef,
    changes: &mut Vec<DefChange>,
)
    ensures
        change_views(final(changes)@) == change_views(old(changes)@) + key_changes(
            language::def_views(olden@),
            language::def_views(newer@),
            key_of(like@),
        ),
{
    let ghost before = change_views(changes@);
    let ghost ov = language::def_views(olden@);
    let ghost nv = language::def_views(newer@);
    let olds = positions_of(olden, like);
    let news = positions_of(newer, like);
    proof {
        assert(ov.len() == olden.len() && nv.len() == newer.len());
        lemma_positions(ov, key_of(like@));
        lemma_positions(nv, key_of(like@));
    }
    let paired: usize = if olds.len() <= news.len() {
        olds.len()
    } else {
        news.len()
    };
    let mut i: usize = 0;
    assert(before + pair_changes(ov, nv, olds@, news@, 0) =~= before);
    while i < paired
        invariant
            i <= paired <= olds@.len(),
            paired <= news@.len(),
            ov == language::def_views(olden@),
            nv == language::def_views(newer@),
            forall|j: int| 0 <= j < olds@.len() ==> (#[trigger] olds@[j]) < ov.len(),
            forall|j: int| 0 <= j < news@.len() ==> (#[trigger] news@[j]) < nv.len(),
            change_views(changes@) == before + pair_changes(ov, nv, olds@, news@, i as int),
        decreases paired - i,
    {
        let ghost was = changes@;
        assert(olds@[i as int] < ov.len() && news@[i as int] < nv.len());
        let o = &olden[olds[i]];
        let new_idx: usize = news[i];
        let n = &newer[new_idx];
        assert(ov[olds@[i as int] as int] == o@ && nv[new_idx as int] == n@);
        let ghost step = pair_change(o@, n@, new_idx);
        if !same_hash(&o.sig_hash, &n.sig_hash) {
            if n.kind == DefKind::ModuleInit {
                changes.push(DefChange::ModuleInitChanged);
            } else {
                changes.push(DefChange::SigChanged { new_idx });
            }
        } else if n.kind != DefKind::ModuleInit && !same_body(&o.body_hash, &n.body_hash) {
            changes.push(DefChange::BodyChanged { new_idx });
        }
        assert(change_views(changes@) =~= change_views(was) + step);
        assert(change_views(changes@) =~= before + pair_changes(ov, nv, olds@, news@, i + 1));
        i = i + 1;
    }
    let ghost pairs = pair_changes(ov, nv, olds@, news@, paired as int);
    let ghost added = added_changes(news@.skip(paired as int));
    i = paired;
    while i < news.len()
        invariant
            paired <= i <= news@.len(),
            added == added_changes(news@.skip(paired as int)),
            change_views(changes@) == before + pairs + added.take(i - paired),
        decreases news@.len() - i,
    {
        let ghost was = changes@;
        changes.push(DefChange::Added { new_idx: news[i] });
        assert(change_views(changes@) =~= change_views(was).push(added[i - paired]));
        assert(added.take(i + 1 - paired) =~= added.take(i - paired).push(added[i - paired]));
        i = i + 1;
    }
    assert(added.take(news@.len() - paired) =~= added);
    let ghost removed = removed_changes(ov, olds@.skip(paired as int));
    i = paired;
    while i < olds.len()
        invariant
            paired <= i <= olds@.len(),
            ov == language::def_views(olden@),
            forall|j: int| 0 <= j < olds@.len() ==> (#[trigger] olds@[j]) < ov.len(),
            removed == removed_changes(ov, olds@.skip(paired as int)),
            change_views(changes@) == before + pairs + added + removed.take(i - paired),
        decreases olds@.len() - i,
    {
        let ghost was = changes@;
        assert(olds@[i as int] < ov.len());
        let d = &olden[olds[i]];
        assert(ov[olds@[i as int] as int] == d@);
        changes.push(DefChange::Removed { old_name: d.name.clone(), old_kind: d.kind });
        assert(olds@.skip(paired as int)[i - paired] == olds@[i as int]);
        assert(change_views(changes@) =~= change_views(was).push(removed[i - paired]));
        assert(removed.take(i + 1 - paired) =~= removed.take(i - paired).push(removed[i - paired]));
        i = i + 1;
    }
    assert(removed.take(olds@.len() - paired) =~= removed);
    assert(change_views(changes@) =~= before + (pairs + added + removed));
}

/// Every change from `old` to `new`: definitions are matched by kind and
/// name, or chain of test names; same-key definitions pair up in order; a
/// pair with the same fingerprints did not change.
pub fn diff_defs(old: &Extraction, new: &Extraction) -> (r: Vec<DefChange>)
    ensures
        change_views(r@) == diff(old@.defs, new@.defs),
        indices_within(change_views(r@), new@.defs.len() as int),
{
    let ghost ov = old@.defs;
    let ghost nv = new@.defs;
    let mut changes: Vec<DefChange> = Vec::new();
    let mut i: usize = 0;
    assert(change_views(changes@) =~= new_part(ov, nv, 0));
    while i < new.defs.len()
        invariant
            i <= new.defs@.len(),
            ov == old@.defs,
            nv == new@.defs,
            change_views(changes@) == new_part(ov, nv, i as int),
        decreases new.defs@.len() - i,
    {
        assert(nv[i as int] == new.defs@[i as int]@);
        if !any_same_key(&new.defs, i, &new.defs[i]) {
            add_key_changes(&old.defs, &new.defs, &new.defs[i], &mut changes);
        }
        i = i + 1;
    }
    let ghost first = new_part(ov, nv, nv.len() as int);
    i = 0;
    assert(change_views(changes@) =~= first + old_part(ov, nv, 0));
    while i < old.defs.len()
        invariant
            i <= old.defs@.len(),
            ov == old@.defs,
            nv == new@.defs,
            change_views(changes@) == first + old_part(ov, nv, i as int),
        decreases old.defs@.len() - i,
    {
        assert(ov[i as int] == old.defs@[i as int]@);
        assert(nv.take(new.defs@.len() as int) =~= nv);
        let ghost was = old_part(ov, nv, i as int);
        if !any_same_key(&new.defs, new.defs.len(), &old.defs[i]) && !any_same_key(
            &old.defs,
            i,
            &old.defs[i],
        ) {
            add_key_changes(&old.defs, &new.defs, &old.defs[i], &mut changes);
            assert(change_views(changes@) =~= first + (was + key_changes(
                ov,
                nv,
                key_of(ov[i as int]),
            )));
        }
        i = i + 1;
    }
    proof {
        assert(nv.len() == new.defs.len());
        lemma_diff_indices(ov, nv);
    }
    changes
}

/// Are the two definitions the same to `diff`: the same key and the same
/// fingerprints, wherever they stand in their files?
pub open spec fn unchanged(o: DefView, n: DefView) -> bool {
    key_of(o) == key_of(n) && o.sig_hash == n.sig_hash && o.body_hash == n.body_hash
}

/// Definitions that keep their keys, fingerprints and order yield no change,
/// however their lines moved.
pub proof fn law_same_fingerprints_no_change(old: Seq<DefView>, new: Seq<DefView>)
    requires
        old.len() == new.len() <= usize::MAX,
        forall|i: int| 0 <= i < old.len() ==> unchanged(#[trigger] old[i], new[i]),
    ensures
        diff(old, new) == Seq::<ChangeView>::empty(),
{
    lemma_no_new_part(old, new, new.len() as int);
    lemma_no_old_part(old, new, old.len() as int);
}

proof fn lemma_same_positions(
    old: Seq<DefView>,
    new: Seq<DefView>,
    key: Key,
)
    requires
        old.len() == new.len() <= usize::MAX,
        forall|i: int| 0 <= i < old.len() ==> unchanged(#[trigger] old[i], new[i]),
    ensures
        positions(old, key) == positions(new, key),
    decreases old.len(),
{
    if old.len() > 0 {
        assert(unchanged(old[old.len() - 1], new[old.len() - 1]));
        assert forall|i: int| 0 <= i < old.drop_last().len() implies unchanged(
            #[trigger] old.drop_last()[i],
            new.drop_last()[i],
        ) by {
            assert(unchanged(old[i], new[i]));
        }
        lemma_same_positions(old.drop_last(), new.drop_last(), key);
    }
}

proof fn lemma_no_pair_changes(
    old: Seq<DefView>,
    new: Seq<DefView>,
    at: Seq<usize>,
    k: int,
)
    requires
        old.len() == new.len(),
        forall|i: int| 0 <= i < old.len() ==> unchanged(#[trigger] old[i], new[i]),
        forall|j: int| 0 <= j < at.len() ==> (#[trigger] at[j]) < old.len(),
        0 <= k <= at.len(),
    ensures
        pair_changes(old, new, at, at, k) == Seq::<ChangeView>::empty(),
    decreases k,
{
    if k > 0 {
        lemma_no_pair_changes(old, new, at, k - 1);
        assert(at[k - 1] < old.len());
        assert(unchanged(old[at[k - 1] as int], new[at[k - 1] as int]));
    }
}

proof fn lemma_no_key_changes(
    old: Seq<DefView>,
    new: Seq<DefView>,
    key: Key,
)
    requires
        old.len() == new.len() <= usize::MAX,
        forall|i: int| 0 <= i < old.len() ==> unchanged(#[trigger] old[i], new[i]),
    ensures
        key_changes(old, new, key) == Seq::<ChangeView>::empty(),
{
    lemma_same_positions(old, new, key);
    lemma_positions(old, key);
    let at = positions(old, key);
    lemma_no_pair_changes(old, new, at, at.len() as int);
    assert(key_changes(old, new, key) =~= Seq::<ChangeView>::empty());
}

proof fn lemma_no_new_part(old: Seq<DefView>, new: Seq<DefView>, k: int)
    requires
        old.len() == new.len() <= usize::MAX,
        0 <= k <= new.len(),
        forall|i: int| 0 <= i < old.len() ==> unchanged(#[trigger] old[i], new[i]),
    ensures
        new_part(old, new, k) == Seq::<ChangeView>::empty(),
    decreases k,
{
    if k > 0 {
        lemma_no_new_part(old, new, k - 1);
        lemma_no_key_changes(old, new, key_of(new[k - 1]));
    }
}

proof fn lemma_no_old_part(old: Seq<DefView>, new: Seq<DefView>, k: int)
    requires
        old.len() == new.len() <= usize::MAX,
        0 <= k <= old.len(),
        forall|i: int| 0 <= i < old.len() ==> unchanged(#[trigger] old[i], new[i]),
    ensures
        old_part(old, new, k) == Seq::<ChangeView>::empty(),
    decreases k,
{
    if k > 0 {
        lemma_no_old_part(old, new, k - 1);
        lemma_no_key_changes(old, new, key_of(old[k - 1]));
    }
}

/// A definition whose key is new is reported as added.
pub proof fn law_new_key_is_added(old: Seq<DefView>, new: Seq<DefView>, i: int)
    requires
        0 <= i < new.len() <= usize::MAX,
        !has_key(old, key_of(new[i])),
    ensures
        diff(old, new).contains(ChangeView::Added { new_idx: i as usize }),
{
    let key = key_of(new[i]);
    let change = ChangeView::Added { new_idx: i as usize };
    lemma_no_positions(old, key);
    lemma_position_listed(new, key, i);
    let news = positions(new, key);
    let at = choose|at: int| 0 <= at < news.len() && news[at] == i;
    let added = added_changes(news.skip(0));
    assert(added[at] == change);
    let all = key_changes(old, new, key);
    assert(pair_changes(old, new, positions(old, key), news, 0) =~= Seq::<ChangeView>::empty());
    assert(all[at] == change);
    lemma_new_part_holds(old, new, new.len() as int, i, all[at]);
    let part = new_part(old, new, new.len() as int);
    let k = choose|k: int| 0 <= k < part.len() && part[k] == change;
    assert(diff(old, new)[k] == change);
}

/// A definition whose key is gone is reported as removed.
pub proof fn law_lost_key_is_removed(old: Seq<DefView>, new: Seq<DefView>, i: int)
    requires
        0 <= i < old.len() <= usize::MAX,
        !has_key(new, key_of(old[i])),
    ensures
        diff(old, new).contains(
            ChangeView::Removed { old_name: old[i].name, old_kind: old[i].kind },
        ),
{
    let key = key_of(old[i]);
    let change = ChangeView::Removed { old_name: old[i].name, old_kind: old[i].kind };
    lemma_no_positions(new, key);
    lemma_position_listed(old, key, i);
    let olds = positions(old, key);
    let at = choose|at: int| 0 <= at < olds.len() && olds[at] == i;
    let removed = removed_changes(old, olds.skip(0));
    assert(removed[at] == change);
    let all = key_changes(old, new, key);
    assert(pair_changes(old, new, olds, positions(new, key), 0) =~= Seq::<ChangeView>::empty());
    assert(all[at] == change);
    lemma_old_part_holds(old, new, old.len() as int, i, all[at]);
    let part = old_part(old, new, old.len() as int);
    let k = choose|k: int| 0 <= k < part.len() && part[k] == change;
    assert(diff(old, new)[new_part(old, new, new.len() as int).len() + k] == change);
}

/// A definition whose fingerprint changed is reported: the `j`th with a key
/// is held against the `j`th that had it.
pub proof fn law_changed_fingerprint_is_reported(
    old: Seq<DefView>,
    new: Seq<DefView>,
    key: Key,
    j: int,
)
    requires
        new.len() <= usize::MAX,
        0 <= j < positions(old, key).len(),
        j < positions(new, key).len(),
    ensures
        ({
            let i = positions(new, key)[j];
            let o = old[positions(old, key)[j] as int];
            let n = new[i as int];
            &&& o.sig_hash != n.sig_hash && key.0 != DefKind::ModuleInit ==> diff(
                old,
                new,
            ).contains(ChangeView::SigChanged { new_idx: i })
            &&& o.sig_hash == n.sig_hash && o.body_hash != n.body_hash && key.0
                != DefKind::ModuleInit ==> diff(old, new).contains(
                ChangeView::BodyChanged { new_idx: i },
            )
            &&& o.sig_hash != n.sig_hash && key.0 == DefKind::ModuleInit ==> diff(
                old,
                new,
            ).contains(ChangeView::ModuleInitChanged)
        }),
{
    let olds = positions(old, key);
    let news = positions(new, key);
    let i = news[j] as int;
    lemma_positions(new, key);
    assert(key_of(new[i]) == key);
    let own = pair_change(old[olds[j] as int], new[i], news[j]);
    if own.len() > 0 {
        let c = own[0];
        let paired: int = if olds.len() <= news.len() {
            olds.len() as int
        } else {
            news.len() as int
        };
        lemma_pair_holds(old, new, olds, news, paired, j, c);
        let pairs = pair_changes(old, new, olds, news, paired);
        let at = choose|at: int| 0 <= at < pairs.len() && pairs[at] == c;
        let all = key_changes(old, new, key);
        assert(all[at] == c);
        lemma_new_part_holds(old, new, new.len() as int, i, c);
        let part = new_part(old, new, new.len() as int);
        let k = choose|k: int| 0 <= k < part.len() && part[k] == c;
        assert(diff(old, new)[k] == c);
    }
}

proof fn lemma_pair_holds(
    old: Seq<DefView>,
    new: Seq<DefView>,
    olds: Seq<usize>,
    news: Seq<usize>,
    k: int,
    j: int,
    c: ChangeView,
)
    requires
        0 <= j < k,
        pair_change(old[olds[j] as int], new[news[j] as int], news[j]).contains(c),
    ensures
        pair_changes(old, new, olds, news, k).contains(c),
    decreases k,
{
    let now = pair_changes(old, new, olds, news, k);
    let before = pair_changes(old, new, olds, news, k - 1);
    if j < k - 1 {
        lemma_pair_holds(old, new, olds, news, k - 1, j, c);
        let at = choose|at: int| 0 <= at < before.len() && before[at] == c;
        assert(now[at] == c);
    } else {
        let own = pair_change(old[olds[j] as int], new[news[j] as int], news[j]);
        let at = choose|at: int| 0 <= at < own.len() && own[at] == c;
        assert(now[before.len() + at] == c);
    }
}

proof fn lemma_no_positions(defs: Seq<DefView>, key: Key)
    requires
        !has_key(defs, key),
    ensures
        positions(defs, key) == Seq::<usize>::empty(),
    decreases defs.len(),
{
    if defs.len() > 0 {
        assert(key_of(defs[defs.len() - 1]) != key);
        if has_key(defs.drop_last(), key) {
            let i = choose|i: int|
                0 <= i < defs.drop_last().len() && key_of(#[trigger] defs.drop_last()[i]) == key;
            assert(key_of(defs[i]) == key);
        }
        lemma_no_positions(defs.drop_last(), key);
    }
}

proof fn lemma_position_listed(defs: Seq<DefView>, key: Key, i: int)
    requires
        0 <= i < defs.len() <= usize::MAX,
        key_of(defs[i]) == key,
    ensures
        exists|at: int| 0 <= at < positions(defs, key).len() && positions(defs, key)[at] == i,
    decreases defs.len(),
{
    let all = positions(defs, key);
    let before = positions(defs.drop_last(), key);
    if i == defs.len() - 1 {
        assert(all[all.len() - 1] == i);
    } else {
        assert(defs.drop_last()[i] == defs[i]);
        lemma_position_listed(defs.drop_last(), key, i);
        let at = choose|at: int| 0 <= at < before.len() && before[at] == i;
        assert(all[at] == i);
    }
}

proof fn lemma_new_part_holds(
    old: Seq<DefView>,
    new: Seq<DefView>,
    k: int,
    i: int,
    c: ChangeView,
)
    requires
        0 <= i < k <= new.len(),
        key_changes(old, new, key_of(new[i])).contains(c),
    ensures
        new_part(old, new, k).contains(c),
    decreases k,
{
    let part = new_part(old, new, k);
    let before = new_part(old, new, k - 1);
    if i < k - 1 {
        lemma_new_part_holds(old, new, k - 1, i, c);
        let at = choose|at: int| 0 <= at < before.len() && before[at] == c;
        assert(part[at] == c);
    } else {
        let key = key_of(new[i]);
        let changes = key_changes(old, new, key);
        if has_key(new.take(k - 1), key) {
            let j = choose|j: int|
                0 <= j < new.take(k - 1).len() && key_of(#[trigger] new.take(k - 1)[j]) == key;
            assert(key_of(new[j]) == key);
            lemma_new_part_holds(old, new, k - 1, j, c);
        } else {
            let at = choose|at: int| 0 <= at < changes.len() && changes[at] == c;
            assert(part[before.len() + at] == c);
        }
    }
}

proof fn lemma_old_part_holds(
    old: Seq<DefView>,
    new: Seq<DefView>,
    k: int,
    i: int,
    c: ChangeView,
)
    requires
        0 <= i < k <= old.len(),
        !has_key(new, key_of(old[i])),
        key_changes(old, new, key_of(old[i])).contains(c),
    ensures
        old_part(old, new, k).contains(c),
    decreases k,
{
    let part = old_part(old, new, k);
    let before = old_part(old, new, k - 1);
    if i < k - 1 {
        lemma_old_part_holds(old, new, k - 1, i, c);
        let at = choose|at: int| 0 <= at < before.len() && before[at] == c;
        assert(part[at] == c);
    } else {
        let key = key_of(old[i]);
        let changes = key_changes(old, new, key);
        if has_key(old.take(k - 1), key) {
            let j = choose|j: int|
                0 <= j < old.take(k - 1).len() && key_of(#[trigger] old.take(k - 1)[j]) == key;
            assert(key_of(old[j]) == key);
            lemma_old_part_holds(old, new, k - 1, j, c);
        } else {
            let at = choose|at: int| 0 <= at < changes.len() && changes[at] == c;
            assert(part[before.len() + at] == c);
        }
    }
}

/// How many of the changes are as `which` says.
pub open spec fn counted(changes: Seq<ChangeView>, which: spec_fn(ChangeView) -> bool) -> nat
    decreases changes.len(),
{
    if changes.len() == 0 {
        0
    } else {
        counted(changes.drop_last(), which) + (if which(changes.last()) {
            1nat
        } else {
            0
        })
    }
}

/// The sum of `f` over the keys.
spec fn total(keys: Seq<Key>, f: spec_fn(Key) -> int) -> int
    decreases keys.len(),
{
    if keys.len() == 0 {
        0
    } else {
        total(keys.drop_last(), f) + f(keys.last())
    }
}

/// The keys that the first `k` new definitions bring up.
spec fn new_keys(new: Seq<DefView>, k: int) -> Seq<Key>
    decreases k,
{
    if k <= 0 {
        Seq::empty()
    } else if has_key(new.take(k - 1), key_of(new[k - 1])) {
        new_keys(new, k - 1)
    } else {
        new_keys(new, k - 1).push(key_of(new[k - 1]))
    }
}

/// The keys that the first `k` old definitions bring up and no new one has.
spec fn old_keys(old: Seq<DefView>, new: Seq<DefView>, k: int) -> Seq<Key>
    decreases k,
{
    if k <= 0 {
        Seq::empty()
    } else if has_key(new, key_of(old[k - 1])) || has_key(old.take(k - 1), key_of(old[k - 1])) {
        old_keys(old, new, k - 1)
    } else {
        old_keys(old, new, k - 1).push(key_of(old[k - 1]))
    }
}

/// The keys that either side has.
spec fn keys(old: Seq<DefView>, new: Seq<DefView>) -> Seq<Key> {
    new_keys(new, new.len() as int) + old_keys(old, new, old.len() as int)
}

proof fn lemma_counted_add(
    a: Seq<ChangeView>,
    b: Seq<ChangeView>,
    which: spec_fn(ChangeView) -> bool,
)
    ensures
        counted(a + b, which) == counted(a, which) + counted(b, which),
    decreases b.len(),
{
    if b.len() == 0 {
        assert(a + b =~= a);
    } else {
        assert((a + b).drop_last() =~= a + b.drop_last());
        lemma_counted_add(a, b.drop_last(), which);
    }
}

proof fn lemma_total_add(a: Seq<Key>, b: Seq<Key>, f: spec_fn(Key) -> int)
    ensures
        total(a + b, f) == total(a, f) + total(b, f),
    decreases b.len(),
{
    if b.len() == 0 {
        assert(a + b =~= a);
    } else {
        assert((a + b).drop_last() =~= a + b.drop_last());
        lemma_total_add(a, b.drop_last(), f);
    }
}

/// A sum without one of its keys.
proof fn lemma_total_without(ks: Seq<Key>, i: int, f: spec_fn(Key) -> int)
    requires
        0 <= i < ks.len(),
    ensures
        total(ks, f) == total(ks.remove(i), f) + f(ks[i]),
{
    let before = ks.take(i);
    let after = ks.skip(i + 1);
    assert(ks =~= before.push(ks[i]) + after);
    assert(ks.remove(i) =~= before + after);
    lemma_total_add(before.push(ks[i]), after, f);
    lemma_total_add(before, after, f);
    assert(before.push(ks[i]).drop_last() =~= before);
}

/// A sum does not depend on the order of the keys.
proof fn lemma_total_of_same_keys(a: Seq<Key>, b: Seq<Key>, f: spec_fn(Key) -> int)
    requires
        a.no_duplicates(),
        b.no_duplicates(),
        forall|key: Key| #[trigger] a.contains(key) <==> b.contains(key),
    ensures
        total(a, f) == total(b, f),
    decreases a.len(),
{
    if a.len() == 0 {
        if b.len() > 0 {
            assert(b.contains(b[0]));
            assert(a.contains(b[0]));
        }
    } else {
        let key = a.last();
        assert(a[a.len() - 1] == key);
        assert(a.contains(key));
        let i = choose|i: int| 0 <= i < b.len() && b[i] == key;
        let x = a.drop_last();
        let y = b.remove(i);
        lemma_total_without(b, i, f);
        assert forall|k: Key| #[trigger] x.contains(k) <==> y.contains(k) by {
            if x.contains(k) {
                let j = choose|j: int| 0 <= j < x.len() && x[j] == k;
                assert(a[j] == k);
                assert(a.contains(k));
                let m = choose|m: int| 0 <= m < b.len() && b[m] == k;
                assert(m != i);
                if m < i {
                    assert(y[m] == k);
                } else {
                    assert(y[m - 1] == k);
                }
            }
            if y.contains(k) {
                let j = choose|j: int| 0 <= j < y.len() && y[j] == k;
                let m = if j < i {
                    j
                } else {
                    j + 1
                };
                assert(b[m] == k);
                assert(b.contains(k));
                assert(a.contains(k));
                let n = choose|n: int| 0 <= n < a.len() && a[n] == k;
                assert(k != key);
                assert(x[n] == k);
            }
        }
        assert(y.no_duplicates()) by {
            assert forall|p: int, q: int|
                0 <= p < y.len() && 0 <= q < y.len() && p != q implies y[p] != y[q] by {
                let m = if p < i {
                    p
                } else {
                    p + 1
                };
                let n = if q < i {
                    q
                } else {
                    q + 1
                };
                assert(y[p] == b[m] && y[q] == b[n]);
            }
        }
        lemma_total_of_same_keys(x, y, f);
    }
}

proof fn lemma_has_key_take(defs: Seq<DefView>, k: int, key: Key)
    requires
        0 < k <= defs.len(),
    ensures
        has_key(defs.take(k), key) <==> has_key(defs.take(k - 1), key) || key_of(defs[k - 1]) == key,
{
    let upto = defs.take(k);
    let before = defs.take(k - 1);
    if has_key(upto, key) {
        let i = choose|i: int| 0 <= i < upto.len() && key_of(#[trigger] upto[i]) == key;
        if i < k - 1 {
            assert(key_of(before[i]) == key);
        }
    }
    if has_key(before, key) {
        let i = choose|i: int| 0 <= i < before.len() && key_of(#[trigger] before[i]) == key;
        assert(key_of(upto[i]) == key);
    }
    assert(upto[k - 1] == defs[k - 1]);
}

proof fn lemma_new_keys(new: Seq<DefView>, k: int)
    requires
        0 <= k <= new.len(),
    ensures
        new_keys(new, k).no_duplicates(),
        forall|key: Key| #[trigger] new_keys(new, k).contains(key) <==> has_key(new.take(k), key),
    decreases k,
{
    if k > 0 {
        lemma_new_keys(new, k - 1);
        let own = key_of(new[k - 1]);
        let before = new_keys(new, k - 1);
        let now = new_keys(new, k);
        assert forall|key: Key| #[trigger] now.contains(key) <==> has_key(new.take(k), key) by {
            lemma_has_key_take(new, k, key);
            assert(before.contains(key) <==> has_key(new.take(k - 1), key));
            lemma_pushed(before, own, now, key);
        }
        assert(before.contains(own) <==> has_key(new.take(k - 1), own));
    }
}

proof fn lemma_pushed(before: Seq<Key>, own: Key, now: Seq<Key>, key: Key)
    requires
        now == before || now == before.push(own),
    ensures
        now.contains(key) <==> before.contains(key) || (now != before && key == own),
{
    if before.contains(key) {
        let i = choose|i: int| 0 <= i < before.len() && before[i] == key;
        assert(now[i] == key);
    }
    if now != before {
        assert(now[now.len() - 1] == own);
    }
}

proof fn lemma_old_keys(old: Seq<DefView>, new: Seq<DefView>, k: int)
    requires
        0 <= k <= old.len(),
    ensures
        old_keys(old, new, k).no_duplicates(),
        forall|key: Key| #[trigger]
            old_keys(old, new, k).contains(key) <==> has_key(old.take(k), key) && !has_key(new, key),
    decreases k,
{
    if k > 0 {
        lemma_old_keys(old, new, k - 1);
        let own = key_of(old[k - 1]);
        let before = old_keys(old, new, k - 1);
        let now = old_keys(old, new, k);
        assert forall|key: Key| #[trigger]
            now.contains(key) <==> has_key(old.take(k), key) && !has_key(new, key) by {
            lemma_has_key_take(old, k, key);
            assert(before.contains(key) <==> has_key(old.take(k - 1), key) && !has_key(new, key));
            lemma_pushed(before, own, now, key);
        }
        assert(before.contains(own) <==> has_key(old.take(k - 1), own) && !has_key(new, own));
    }
}

proof fn lemma_keys(old: Seq<DefView>, new: Seq<DefView>)
    ensures
        keys(old, new).no_duplicates(),
        forall|key: Key| #[trigger]
            keys(old, new).contains(key) <==> has_key(old, key) || has_key(new, key),
{
    let a = new_keys(new, new.len() as int);
    let b = old_keys(old, new, old.len() as int);
    let all = keys(old, new);
    lemma_new_keys(new, new.len() as int);
    lemma_old_keys(old, new, old.len() as int);
    assert(new.take(new.len() as int) =~= new);
    assert(old.take(old.len() as int) =~= old);
    assert forall|key: Key| #[trigger]
        all.contains(key) <==> has_key(old, key) || has_key(new, key) by {
        assert(a.contains(key) <==> has_key(new, key));
        assert(b.contains(key) <==> has_key(old, key) && !has_key(new, key));
        if all.contains(key) {
            let i = choose|i: int| 0 <= i < all.len() && all[i] == key;
            if i < a.len() {
                assert(a[i] == key);
            } else {
                assert(b[i - a.len()] == key);
            }
        }
        if a.contains(key) {
            let i = choose|i: int| 0 <= i < a.len() && a[i] == key;
            assert(all[i] == key);
        }
        if b.contains(key) {
            let i = choose|i: int| 0 <= i < b.len() && b[i] == key;
            assert(all[a.len() + i] == key);
        }
    }
    assert forall|i: int, j: int| 0 <= i < all.len() && 0 <= j < all.len() && i != j implies all[i]
        != all[j] by {
        if i < a.len() {
            assert(a.contains(a[i]));
        } else {
            assert(b.contains(b[i - a.len()]));
        }
        if j < a.len() {
            assert(a.contains(a[j]));
        } else {
            assert(b.contains(b[j - a.len()]));
        }
    }
}

/// How many changes of the definitions with one key are as `which` says.
spec fn count_by_key(
    old: Seq<DefView>,
    new: Seq<DefView>,
    which: spec_fn(ChangeView) -> bool,
) -> spec_fn(Key) -> int {
    |key: Key| counted(key_changes(old, new, key), which) as int
}

proof fn lemma_counted_new(
    old: Seq<DefView>,
    new: Seq<DefView>,
    k: int,
    which: spec_fn(ChangeView) -> bool,
)
    requires
        0 <= k <= new.len(),
    ensures
        counted(new_part(old, new, k), which) == total(
            new_keys(new, k),
            count_by_key(old, new, which),
        ),
    decreases k,
{
    if k > 0 {
        lemma_counted_new(old, new, k - 1, which);
        let key = key_of(new[k - 1]);
        lemma_counted_add(new_part(old, new, k - 1), key_changes(old, new, key), which);
        let before = new_keys(new, k - 1);
        assert(before.push(key).drop_last() =~= before);
    }
}

proof fn lemma_counted_old(
    old: Seq<DefView>,
    new: Seq<DefView>,
    k: int,
    which: spec_fn(ChangeView) -> bool,
)
    requires
        0 <= k <= old.len(),
    ensures
        counted(old_part(old, new, k), which) == total(
            old_keys(old, new, k),
            count_by_key(old, new, which),
        ),
    decreases k,
{
    if k > 0 {
        lemma_counted_old(old, new, k - 1, which);
        let key = key_of(old[k - 1]);
        lemma_counted_add(old_part(old, new, k - 1), key_changes(old, new, key), which);
        let before = old_keys(old, new, k - 1);
        assert(before.push(key).drop_last() =~= before);
    }
}

/// Changes are counted key by key.
proof fn lemma_counted(old: Seq<DefView>, new: Seq<DefView>, which: spec_fn(ChangeView) -> bool)
    ensures
        counted(diff(old, new), which) == total(keys(old, new), count_by_key(old, new, which)),
{
    lemma_counted_new(old, new, new.len() as int, which);
    lemma_counted_old(old, new, old.len() as int, which);
    lemma_counted_add(
        new_part(old, new, new.len() as int),
        old_part(old, new, old.len() as int),
        which,
    );
    lemma_total_add(
        new_keys(new, new.len() as int),
        old_keys(old, new, old.len() as int),
        count_by_key(old, new, which),
    );
}

/// Does the change count the same way from the other side, as long as it is
/// neither an addition nor a removal?
spec fn two_sided(which: spec_fn(ChangeView) -> bool) -> bool {
    &&& forall|i: usize, j: usize|
        #[trigger] which(ChangeView::SigChanged { new_idx: i }) == #[trigger] which(
            ChangeView::SigChanged { new_idx: j },
        )
    &&& forall|i: usize, j: usize|
        #[trigger] which(ChangeView::BodyChanged { new_idx: i }) == #[trigger] which(
            ChangeView::BodyChanged { new_idx: j },
        )
}

proof fn lemma_one(c: ChangeView, which: spec_fn(ChangeView) -> bool)
    ensures
        counted(seq![c], which) == (if which(c) {
            1nat
        } else {
            0
        }),
{
    reveal_with_fuel(counted, 2);
    assert(seq![c].drop_last() =~= Seq::empty());
}

proof fn lemma_pairs_swapped(
    old: Seq<DefView>,
    new: Seq<DefView>,
    olds: Seq<usize>,
    news: Seq<usize>,
    k: int,
    key: Key,
    which: spec_fn(ChangeView) -> bool,
)
    requires
        two_sided(which),
        0 <= k <= olds.len(),
        k <= news.len(),
        forall|j: int| 0 <= j < olds.len() ==> key_of(old[(#[trigger] olds[j]) as int]) == key,
        forall|j: int| 0 <= j < news.len() ==> key_of(new[(#[trigger] news[j]) as int]) == key,
    ensures
        counted(pair_changes(old, new, olds, news, k), which) == counted(
            pair_changes(new, old, news, olds, k),
            which,
        ),
    decreases k,
{
    if k > 0 {
        lemma_pairs_swapped(old, new, olds, news, k - 1, key, which);
        let o = old[olds[k - 1] as int];
        let n = new[news[k - 1] as int];
        let x = pair_change(o, n, news[k - 1]);
        let y = pair_change(n, o, olds[k - 1]);
        lemma_counted_add(pair_changes(old, new, olds, news, k - 1), x, which);
        lemma_counted_add(pair_changes(new, old, news, olds, k - 1), y, which);
        assert(o.kind == key.0 && n.kind == key.0);
        assert(x.len() == y.len());
        if x.len() > 0 {
            assert(x =~= seq![x[0]]);
            assert(y =~= seq![y[0]]);
            lemma_one(x[0], which);
            lemma_one(y[0], which);
        }
    }
}

/// No change between paired definitions is an addition or a removal.
proof fn lemma_pairs_none(
    old: Seq<DefView>,
    new: Seq<DefView>,
    olds: Seq<usize>,
    news: Seq<usize>,
    k: int,
    which: spec_fn(ChangeView) -> bool,
)
    requires
        forall|c: ChangeView| #[trigger] which(c) ==> c is Added || c is Removed,
    ensures
        counted(pair_changes(old, new, olds, news, k), which) == 0,
    decreases k,
{
    if k > 0 {
        lemma_pairs_none(old, new, olds, news, k - 1, which);
        let x = pair_change(old[olds[k - 1] as int], new[news[k - 1] as int], news[k - 1]);
        lemma_counted_add(pair_changes(old, new, olds, news, k - 1), x, which);
        if x.len() > 0 {
            assert(x =~= seq![x[0]]);
            lemma_one(x[0], which);
        }
    }
}

/// Where all changes count the same, the count is all or nothing.
proof fn lemma_counted_all(
    changes: Seq<ChangeView>,
    which: spec_fn(ChangeView) -> bool,
    counts: bool,
)
    requires
        forall|i: int| 0 <= i < changes.len() ==> which(#[trigger] changes[i]) == counts,
    ensures
        counted(changes, which) == (if counts {
            changes.len()
        } else {
            0
        }),
    decreases changes.len(),
{
    if changes.len() > 0 {
        let rest = changes.drop_last();
        assert forall|i: int| 0 <= i < rest.len() implies which(#[trigger] rest[i]) == counts by {
            assert(rest[i] == changes[i]);
        }
        lemma_counted_all(rest, which, counts);
        assert(changes[changes.len() - 1] == changes.last());
    }
}

/// The smaller of two lengths.
spec fn least(a: nat, b: nat) -> nat {
    if a <= b {
        a
    } else {
        b
    }
}

/// The changes of one key, counted on either side.
proof fn lemma_key_counts(old: Seq<DefView>, new: Seq<DefView>, key: Key)
    requires
        old.len() <= usize::MAX,
        new.len() <= usize::MAX,
    ensures
        ({
            let o = positions(old, key).len();
            let n = positions(new, key).len();
            let x = key_changes(old, new, key);
            &&& counted(x, |c: ChangeView| c is Added) == n - least(o, n)
            &&& counted(x, |c: ChangeView| c is Removed) == o - least(o, n)
        }),
        forall|which: spec_fn(ChangeView) -> bool|
            two_sided(which) && (forall|c: ChangeView| #[trigger]
                which(c) ==> !(c is Added) && !(c is Removed)) ==> #[trigger] counted(
                key_changes(old, new, key),
                which,
            ) == counted(key_changes(new, old, key), which),
{
    let olds = positions(old, key);
    let news = positions(new, key);
    let k = least(olds.len(), news.len()) as int;
    lemma_positions(old, key);
    lemma_positions(new, key);
    let pairs = pair_changes(old, new, olds, news, k);
    let back = pair_changes(new, old, news, olds, k);
    let added = added_changes(news.skip(k));
    let removed = removed_changes(old, olds.skip(k));
    let x = key_changes(old, new, key);
    assert(x == pairs + added + removed);
    let is_added = |c: ChangeView| c is Added;
    let is_removed = |c: ChangeView| c is Removed;
    lemma_pairs_none(old, new, olds, news, k, is_added);
    lemma_pairs_none(old, new, olds, news, k, is_removed);
    lemma_counted_add(pairs + added, removed, is_added);
    lemma_counted_add(pairs, added, is_added);
    lemma_counted_all(added, is_added, true);
    lemma_counted_all(removed, is_added, false);
    lemma_counted_add(pairs + added, removed, is_removed);
    lemma_counted_add(pairs, added, is_removed);
    lemma_counted_all(added, is_removed, false);
    lemma_counted_all(removed, is_removed, true);
    assert forall|which: spec_fn(ChangeView) -> bool|
        two_sided(which) && (forall|c: ChangeView| #[trigger]
            which(c) ==> !(c is Added) && !(c is Removed)) implies #[trigger] counted(x, which)
        == counted(key_changes(new, old, key), which) by {
        let added_back = added_changes(olds.skip(k));
        let removed_back = removed_changes(new, news.skip(k));
        assert(key_changes(new, old, key) == back + added_back + removed_back);
        lemma_pairs_swapped(old, new, olds, news, k, key, which);
        lemma_counted_add(pairs + added, removed, which);
        lemma_counted_add(pairs, added, which);
        lemma_counted_add(back + added_back, removed_back, which);
        lemma_counted_add(back, added_back, which);
        assert forall|i: int| 0 <= i < added.len() implies which(#[trigger] added[i]) == false by {
            assert(added[i] is Added);
        }
        assert forall|i: int| 0 <= i < removed.len() implies which(#[trigger] removed[i])
            == false by {
            assert(removed[i] is Removed);
        }
        assert forall|i: int| 0 <= i < added_back.len() implies which(#[trigger] added_back[i])
            == false by {
            assert(added_back[i] is Added);
        }
        assert forall|i: int| 0 <= i < removed_back.len() implies which(#[trigger] removed_back[i])
            == false by {
            assert(removed_back[i] is Removed);
        }
        lemma_counted_all(added, which, false);
        lemma_counted_all(removed, which, false);
        lemma_counted_all(added_back, which, false);
        lemma_counted_all(removed_back, which, false);
    }
}

/// A sum depends on what is summed for its keys alone.
proof fn lemma_total_agrees(ks: Seq<Key>, f: spec_fn(Key) -> int, g: spec_fn(Key) -> int)
    requires
        forall|key: Key| #[trigger] f(key) == g(key),
    ensures
        total(ks, f) == total(ks, g),
    decreases ks.len(),
{
    if ks.len() > 0 {
        lemma_total_agrees(ks.drop_last(), f, g);
        assert(f(ks.last()) == g(ks.last()));
    }
}

/// Changes counted by `which` from one side are those counted by `back` from
/// the other, as long as they are for each key.
proof fn lemma_swapped(
    old: Seq<DefView>,
    new: Seq<DefView>,
    which: spec_fn(ChangeView) -> bool,
    back: spec_fn(ChangeView) -> bool,
)
    requires
        forall|key: Key| #[trigger]
            counted(key_changes(old, new, key), which) == counted(
                key_changes(new, old, key),
                back,
            ),
    ensures
        counted(diff(old, new), which) == counted(diff(new, old), back),
{
    lemma_counted(old, new, which);
    lemma_counted(new, old, back);
    lemma_keys(old, new);
    lemma_keys(new, old);
    let f = count_by_key(old, new, which);
    let g = count_by_key(new, old, back);
    assert forall|key: Key| #[trigger] f(key) == g(key) by {
        assert(counted(key_changes(old, new, key), which) == counted(
            key_changes(new, old, key),
            back,
        ));
    }
    lemma_total_of_same_keys(keys(old, new), keys(new, old), f);
    lemma_total_agrees(keys(new, old), f, g);
}

/// Seen from the other side, what was added was removed and what was removed
/// was added; as many signatures, bodies and module inits changed.
pub proof fn law_swapped_sides_swap_changes(old: Seq<DefView>, new: Seq<DefView>)
    requires
        old.len() <= usize::MAX,
        new.len() <= usize::MAX,
    ensures
        ({
            let x = diff(old, new);
            let y = diff(new, old);
            &&& counted(x, |c: ChangeView| c is Added) == counted(y, |c: ChangeView| c is Removed)
            &&& counted(x, |c: ChangeView| c is Removed) == counted(y, |c: ChangeView| c is Added)
            &&& counted(x, |c: ChangeView| c is SigChanged) == counted(
                y,
                |c: ChangeView| c is SigChanged,
            )
            &&& counted(x, |c: ChangeView| c is BodyChanged) == counted(
                y,
                |c: ChangeView| c is BodyChanged,
            )
            &&& counted(x, |c: ChangeView| c is ModuleInitChanged) == counted(
                y,
                |c: ChangeView| c is ModuleInitChanged,
            )
        }),
{
    let is_added = |c: ChangeView| c is Added;
    let is_removed = |c: ChangeView| c is Removed;
    let is_sig = |c: ChangeView| c is SigChanged;
    let is_body = |c: ChangeView| c is BodyChanged;
    let is_init = |c: ChangeView| c is ModuleInitChanged;
    assert forall|key: Key| #[trigger]
        counted(key_changes(old, new, key), is_added) == counted(
            key_changes(new, old, key),
            is_removed,
        ) by {
        lemma_key_counts(old, new, key);
        lemma_key_counts(new, old, key);
    }
    assert forall|key: Key| #[trigger]
        counted(key_changes(old, new, key), is_removed) == counted(
            key_changes(new, old, key),
            is_added,
        ) by {
        lemma_key_counts(old, new, key);
        lemma_key_counts(new, old, key);
    }
    assert forall|key: Key| #[trigger]
        counted(key_changes(old, new, key), is_sig) == counted(
            key_changes(new, old, key),
            is_sig,
        ) by {
        lemma_key_counts(old, new, key);
    }
    assert forall|key: Key| #[trigger]
        counted(key_changes(old, new, key), is_body) == counted(
            key_changes(new, old, key),
            is_body,
        ) by {
        lemma_key_counts(old, new, key);
    }
    assert forall|key: Key| #[trigger]
        counted(key_changes(old, new, key), is_init) == counted(
            key_changes(new, old, key),
            is_init,
        ) by {
        lemma_key_counts(old, new, key);
    }
    lemma_swapped(old, new, is_added, is_removed);
    lemma_swapped(old, new, is_removed, is_added);
    lemma_swapped(old, new, is_sig, is_sig);
    lemma_swapped(old, new, is_body, is_body);
    lemma_swapped(old, new, is_init, is_init);
}

/// The definitions are as many as those with each key together.
proof fn lemma_total_positions(defs: Seq<DefView>, ks: Seq<Key>)
    requires
        ks.no_duplicates(),
        forall|key: Key| has_key(defs, key) ==> #[trigger] ks.contains(key),
    ensures
        total(ks, |key: Key| positions(defs, key).len() as int) == defs.len(),
    decreases defs.len(),
{
    let f = |key: Key| positions(defs, key).len() as int;
    if defs.len() == 0 {
        lemma_total_zero(ks, f);
    } else {
        let rest = defs.drop_last();
        let own = key_of(defs.last());
        let g = |key: Key| positions(rest, key).len() as int;
        assert forall|key: Key| has_key(rest, key) implies #[trigger] ks.contains(key) by {
            let i = choose|i: int| 0 <= i < rest.len() && key_of(#[trigger] rest[i]) == key;
            assert(key_of(defs[i]) == key);
            assert(has_key(defs, key));
        }
        lemma_total_positions(rest, ks);
        assert(key_of(defs[defs.len() - 1]) == own);
        assert(has_key(defs, own));
        assert(ks.contains(own));
        let i = choose|i: int| 0 <= i < ks.len() && ks[i] == own;
        lemma_total_without(ks, i, f);
        lemma_total_without(ks, i, g);
        let others = ks.remove(i);
        assert forall|j: int| 0 <= j < others.len() implies f(#[trigger] others[j]) == g(
            others[j],
        ) by {
            let m = if j < i {
                j
            } else {
                j + 1
            };
            assert(others[j] == ks[m]);
            assert(ks[m] != ks[i]);
        }
        lemma_total_agrees_on(others, f, g);
    }
}

proof fn lemma_total_zero(ks: Seq<Key>, f: spec_fn(Key) -> int)
    requires
        forall|key: Key| #[trigger] f(key) == 0,
    ensures
        total(ks, f) == 0,
    decreases ks.len(),
{
    if ks.len() > 0 {
        lemma_total_zero(ks.drop_last(), f);
        assert(f(ks.last()) == 0);
    }
}

proof fn lemma_total_agrees_on(ks: Seq<Key>, f: spec_fn(Key) -> int, g: spec_fn(Key) -> int)
    requires
        forall|j: int| 0 <= j < ks.len() ==> f(#[trigger] ks[j]) == g(ks[j]),
    ensures
        total(ks, f) == total(ks, g),
    decreases ks.len(),
{
    if ks.len() > 0 {
        let rest = ks.drop_last();
        assert forall|j: int| 0 <= j < rest.len() implies f(#[trigger] rest[j]) == g(rest[j]) by {
            assert(rest[j] == ks[j]);
        }
        lemma_total_agrees_on(rest, f, g);
        assert(f(ks[ks.len() - 1]) == g(ks[ks.len() - 1]));
    }
}

/// What was added, less what was removed, is what there is more of.
pub proof fn law_additions_balance_removals(old: Seq<DefView>, new: Seq<DefView>)
    requires
        old.len() <= usize::MAX,
        new.len() <= usize::MAX,
    ensures
        counted(diff(old, new), |c: ChangeView| c is Added) - counted(
            diff(old, new),
            |c: ChangeView| c is Removed,
        ) == new.len() - old.len(),
{
    let is_added = |c: ChangeView| c is Added;
    let is_removed = |c: ChangeView| c is Removed;
    let ks = keys(old, new);
    lemma_keys(old, new);
    lemma_counted(old, new, is_added);
    lemma_counted(old, new, is_removed);
    lemma_total_positions(old, ks);
    lemma_total_positions(new, ks);
    let added = count_by_key(old, new, is_added);
    let removed = count_by_key(old, new, is_removed);
    let olds = |key: Key| positions(old, key).len() as int;
    let news = |key: Key| positions(new, key).len() as int;
    let l = |key: Key| added(key) + olds(key);
    let r = |key: Key| removed(key) + news(key);
    assert forall|key: Key| #[trigger] l(key) == r(key) by {
        lemma_key_counts(old, new, key);
    }
    lemma_total_agrees(ks, l, r);
    lemma_total_sum(ks, added, olds);
    lemma_total_sum(ks, removed, news);
}

proof fn lemma_total_sum(ks: Seq<Key>, f: spec_fn(Key) -> int, g: spec_fn(Key) -> int)
    ensures
        total(ks, |key: Key| f(key) + g(key)) == total(ks, f) + total(ks, g),
    decreases ks.len(),
{
    if ks.len() > 0 {
        lemma_total_sum(ks.drop_last(), f, g);
    }
}

} // verus!
