use vstd::prelude::*;

verus! {

/// A single change to a file: the file's name and the replacement to make in it.
pub struct Change {
    /// The file to change
    pub file: String,
    /// The actual replacement
    pub patch: Patch,
}

/// File-agnostic change to be applied: replace the bytes at `location` with `bytes`.
pub struct Patch {
    /// The range of bytes to replace
    pub location: core::ops::Range<usize>,
    /// New bytes to replace the range with
    pub bytes: Vec<u8>,
}

impl Patch {
    /// The byte range is well formed and lies within a buffer of length `n`.
    pub open spec fn in_bounds(&self, n: int) -> bool {
        self.location.start <= self.location.end <= n
    }

    /// The byte range is well formed (start does not exceed end).
    pub open spec fn wf(&self) -> bool {
        self.location.start <= self.location.end
    }
}

/// Patches are ordered ascending by the start of their byte range.
pub open spec fn sorted_by_start(ps: Seq<Patch>) -> bool {
    forall|i: int, j: int|
        0 <= i <= j < ps.len() ==> #[trigger] ps[i].location.start <= #[trigger] ps[j].location.start
}

/// Every consecutive pair of patches is disjoint: the earlier one ends at or
/// before the later one starts.
pub open spec fn nonoverlapping(ps: Seq<Patch>) -> bool {
    forall|i: int|
        0 <= i < ps.len() - 1 ==> #[trigger] ps[i].location.end <= ps[i + 1].location.start
}

/// Insert `p` into `ps` after every element whose start is at or before `p`'s
/// start. When `ps` is sorted this keeps it sorted, and ties keep their
/// arrival order.
pub open spec fn insert_sorted(ps: Seq<Patch>, p: Patch) -> Seq<Patch>
    decreases ps.len(),
{
    if ps.len() == 0 {
        seq![p]
    } else if ps.last().location.start <= p.location.start {
        ps.push(p)
    } else {
        insert_sorted(ps.drop_last(), p).push(ps.last())
    }
}

/// Stable sort of patches by start offset, as a fold of `insert_sorted` over
/// the sequence in arrival order.
pub open spec fn stable_sorted(ps: Seq<Patch>) -> Seq<Patch>
    decreases ps.len(),
{
    if ps.len() == 0 {
        Seq::empty()
    } else {
        insert_sorted(stable_sorted(ps.drop_last()), ps.last())
    }
}

/// The distinct file names of `changes`, in order of first occurrence.
pub open spec fn distinct_files(changes: Seq<Change>) -> Seq<Seq<char>>
    decreases changes.len(),
{
    if changes.len() == 0 {
        Seq::empty()
    } else {
        let prev = distinct_files(changes.drop_last());
        if prev.contains(changes.last().file@) {
            prev
        } else {
            prev.push(changes.last().file@)
        }
    }
}

/// The patches of `changes` that target the file named `f`, in arrival order.
pub open spec fn patches_for(changes: Seq<Change>, f: Seq<char>) -> Seq<Patch>
    decreases changes.len(),
{
    if changes.len() == 0 {
        Seq::empty()
    } else {
        let prev = patches_for(changes.drop_last(), f);
        if changes.last().file@ == f {
            prev.push(changes.last().patch)
        } else {
            prev
        }
    }
}

/// Grouping rejected the whole run: two patches for one file overlap.
#[derive(Debug)]
pub struct OverlapError;

/// All changes to a file, ready to be applied
pub struct FileChangeSet {
    /// The file to change
    file: String,
    /// Changes.
    /// Invariants: sorted, non-overlapping
    changes: Vec<Patch>,
}

impl FileChangeSet {
    /// The name of the file this set of changes targets.
    pub closed spec fn spec_file(&self) -> Seq<char> {
        self.file@
    }

    /// The patches of this set, sorted ascending by start offset.
    pub closed spec fn spec_changes(&self) -> Seq<Patch> {
        self.changes@
    }

    /// The invariant of a grouped change set: sorted and non-overlapping.
    pub open spec fn wf(&self) -> bool {
        sorted_by_start(self.spec_changes()) && nonoverlapping(self.spec_changes())
    }
}

/// Inserting at the position found by scanning from the end matches `insert_sorted`.
proof fn lemma_insert_sorted_at(ps: Seq<Patch>, p: Patch, k: int)
    requires
        0 <= k <= ps.len(),
        forall|j: int| k <= j < ps.len() ==> #[trigger] ps[j].location.start > p.location.start,
        k > 0 ==> ps[k - 1].location.start <= p.location.start,
    ensures
        insert_sorted(ps, p) == ps.take(k) + seq![p] + ps.skip(k),
    decreases ps.len(),
{
    if ps.len() == 0 {
        assert(insert_sorted(ps, p) =~= ps.take(k) + seq![p] + ps.skip(k));
    } else if k == ps.len() {
        assert(insert_sorted(ps, p) =~= ps.take(k) + seq![p] + ps.skip(k));
    } else {
        lemma_insert_sorted_at(ps.drop_last(), p, k);
        assert(insert_sorted(ps, p) =~= ps.take(k) + seq![p] + ps.skip(k));
    }
}

/// Insert a patch into a start-sorted vector, keeping arrival order on ties.
fn insert_patch(ps: &mut Vec<Patch>, p: Patch)
    ensures
        final(ps)@ == insert_sorted(old(ps)@, p),
{
    let ghost orig = ps@;
    let mut k: usize = ps.len();
    while k > 0 && ps[k - 1].location.start > p.location.start
        invariant
            ps@ == orig,
            k <= ps@.len(),
            forall|j: int| k <= j < ps@.len() ==> #[trigger] ps@[j].location.start > p.location.start,
        decreases k,
    {
        k = k - 1;
    }
    proof {
        lemma_insert_sorted_at(ps@, p, k as int);
    }
    ps.insert(k, p);
    proof {
        assert(ps@ =~= orig.take(k as int) + seq![p] + orig.skip(k as int));
    }
}

/// The distinct file names carry no duplicates.
proof fn lemma_distinct_files_no_dup(changes: Seq<Change>)
    ensures
        forall|i: int, j: int|
            0 <= i < j < distinct_files(changes).len() ==> #[trigger] distinct_files(changes)[i]
                != #[trigger] distinct_files(changes)[j],
    decreases changes.len(),
{
    if changes.len() > 0 {
        lemma_distinct_files_no_dup(changes.drop_last());
        let prev = distinct_files(changes.drop_last());
        if !prev.contains(changes.last().file@) {
            assert forall|i: int, j: int|
                0 <= i < j < distinct_files(changes).len() implies #[trigger] distinct_files(
                changes,
            )[i] != #[trigger] distinct_files(changes)[j] by {
                if j == distinct_files(changes).len() - 1 {
                    assert(!prev.contains(distinct_files(changes)[j]));
                    assert(prev[i] == distinct_files(changes)[i]);
                }
            }
        }
    }
}

/// A file never seen in `changes` has no patches there.
proof fn lemma_no_file_no_patches(changes: Seq<Change>, f: Seq<char>)
    requires
        !distinct_files(changes).contains(f),
    ensures
        patches_for(changes, f) == Seq::<Patch>::empty(),
    decreases changes.len(),
{
    if changes.len() > 0 {
        let prev = distinct_files(changes.drop_last());
        assert forall|x: Seq<char>| prev.contains(x) implies distinct_files(changes).contains(x) by {
            let i = choose|i: int| 0 <= i < prev.len() && prev[i] == x;
            if prev.contains(changes.last().file@) {
                assert(distinct_files(changes)[i] == x);
            } else {
                assert(distinct_files(changes)[i] == x);
            }
        }
        lemma_no_file_no_patches(changes.drop_last(), f);
        if prev.contains(changes.last().file@) {
        } else {
            assert(distinct_files(changes)[distinct_files(changes).len() - 1]
                == changes.last().file@);
            assert(distinct_files(changes).contains(changes.last().file@));
        }
        assert(changes.last().file@ != f);
    }
}

impl FileChangeSet {
    /// Takes patches in the order they were produced, groups them by file, and
    /// sorts each file's patches ascending by start offset (stable: ties keep
    /// producer order).  If any two patches for one file overlap, the whole
    /// run is rejected and no change set is produced.
    pub fn group(changes: Vec<Change>) -> (r: Result<Vec<FileChangeSet>, OverlapError>)
        ensures
            match r {
                Ok(sets) => {
                    &&& sets@.len() == distinct_files(changes@).len()
                    &&& forall|i: int|
                        0 <= i < sets@.len() ==> {
                            &&& (#[trigger] sets@[i]).spec_file() == distinct_files(changes@)[i]
                            &&& sets@[i].spec_changes() == stable_sorted(
                                patches_for(changes@, distinct_files(changes@)[i]),
                            )
                            &&& sets@[i].wf()
                        }
                },
                Err(e) => exists|i: int|
                    0 <= i < distinct_files(changes@).len() && !nonoverlapping(
                        #[trigger] stable_sorted(patches_for(changes@, distinct_files(changes@)[i])),
                    ),
            },
    {
        let ghost all = changes@;
        let mut pending = changes;
        let mut sets: Vec<FileChangeSet> = Vec::new();
        let ghost mut done: int = 0;

        while pending.len() > 0
            invariant
                all == changes@,
                0 <= done <= all.len(),
                pending@ == all.skip(done),
                sets@.len() == distinct_files(all.take(done)).len(),
                forall|k: int|
                    0 <= k < sets@.len() ==> (#[trigger] sets@[k]).spec_file() == distinct_files(
                        all.take(done),
                    )[k],
                forall|k: int|
                    0 <= k < sets@.len() ==> (#[trigger] sets@[k]).spec_changes() == stable_sorted(
                        patches_for(all.take(done), sets@[k].spec_file()),
                    ),
            decreases pending@.len(),
        {
            let c = pending.remove(0);
            proof {
                assert(c == all[done]);
                assert(pending@ =~= all.skip(done + 1));
                assert(all.take(done + 1).drop_last() =~= all.take(done));
                assert(all.take(done + 1).last() == c);
            }
            let ghost prev_files = distinct_files(all.take(done));

            // Find the change set for this file, if one exists already.
            let mut found: bool = false;
            let mut at: usize = 0;
            let mut j: usize = 0;
            while j < sets.len() && !found
                invariant
                    j <= sets@.len(),
                    !found ==> forall|k: int|
                        0 <= k < j ==> (#[trigger] sets@[k]).spec_file() != c.file@,
                    found ==> at < sets@.len() && sets@[at as int].spec_file() == c.file@,
                decreases sets@.len() - j + (if found { 0int } else { 1int }),
            {
                if sets[j].file == c.file {
                    found = true;
                    at = j;
                } else {
                    j = j + 1;
                }
            }
            proof {
                assert(!found ==> forall|k: int|
                    0 <= k < sets@.len() ==> (#[trigger] sets@[k]).spec_file() != c.file@);
            }

            if found {
                proof {
                    lemma_distinct_files_no_dup(all.take(done));
                    assert(prev_files.contains(c.file@)) by {
                        assert(prev_files[at as int] == sets@[at as int].spec_file());
                    }
                    assert(distinct_files(all.take(done + 1)) == prev_files);
                }
                let ghost old_sets = sets@;
                let mut fcs = sets.remove(at);
                let ghost old_fcs = fcs;
                insert_patch(&mut fcs.changes, c.patch);
                sets.insert(at, fcs);
                proof {
                    assert(sets@ =~= old_sets.update(at as int, fcs));
                    assert(fcs.spec_changes() == insert_sorted(old_fcs.spec_changes(), c.patch));
                    assert forall|k: int| 0 <= k < sets@.len() implies (#[trigger] sets@[k]).spec_changes()
                        == stable_sorted(patches_for(all.take(done + 1), sets@[k].spec_file())) by {
                        if k == at {
                            assert(patches_for(all.take(done + 1), c.file@) == patches_for(
                                all.take(done),
                                c.file@,
                            ).push(c.patch));
                            assert(stable_sorted(patches_for(all.take(done), c.file@).push(c.patch))
                                == insert_sorted(
                                stable_sorted(patches_for(all.take(done), c.file@)),
                                c.patch,
                            )) by {
                                let s = patches_for(all.take(done), c.file@).push(c.patch);
                                assert(s.drop_last() =~= patches_for(all.take(done), c.file@));
                            }
                        } else {
                            assert(sets@[k] == old_sets[k]);
                            assert(sets@[k].spec_file() == prev_files[k]);
                            assert(prev_files[k] != prev_files[at as int]);
                            assert(patches_for(all.take(done + 1), sets@[k].spec_file())
                                == patches_for(all.take(done), sets@[k].spec_file()));
                        }
                    }
                }
            } else {
                proof {
                    if prev_files.contains(c.file@) {
                        let k = choose|k: int|
                            0 <= k < prev_files.len() && prev_files[k] == c.file@;
                        assert(sets@[k].spec_file() == c.file@);
                        assert(false);
                    }
                    assert(distinct_files(all.take(done + 1)) == prev_files.push(c.file@));
                    lemma_no_file_no_patches(all.take(done), c.file@);
                }
                let mut one = Vec::new();
                one.push(c.patch);
                let fcs = FileChangeSet { file: c.file, changes: one };
                sets.push(fcs);
                proof {
                    let s1 = patches_for(all.take(done + 1), fcs.file@);
                    assert(s1 =~= seq![c.patch]);
                    assert(s1.drop_last() =~= Seq::<Patch>::empty());
                    assert(stable_sorted(s1.drop_last()) == Seq::<Patch>::empty());
                    assert(stable_sorted(s1) == insert_sorted(stable_sorted(s1.drop_last()), s1.last()));
                    assert(stable_sorted(s1) == insert_sorted(Seq::<Patch>::empty(), c.patch));
                    assert(stable_sorted(s1) =~= seq![c.patch]);
                    assert(fcs.changes@ =~= seq![c.patch]);
                    assert forall|k: int| 0 <= k < sets@.len() implies (#[trigger] sets@[k]).spec_changes()
                        == stable_sorted(patches_for(all.take(done + 1), sets@[k].spec_file())) by {
                        if k < sets@.len() - 1 {
                            assert(sets@[k].spec_file() != fcs.file@);
                            assert(patches_for(all.take(done + 1), sets@[k].spec_file())
                                == patches_for(all.take(done), sets@[k].spec_file()));
                        }
                    }
                }
            }
            proof {
                done = done + 1;
            }
        }
        proof {
            assert(all.take(done) =~= all);
        }

        // Validate adjacency within every file: any overlap rejects the run.
        let mut i: usize = 0;
        while i < sets.len()
            invariant
                all == changes@,
                i <= sets@.len(),
                forall|k: int| 0 <= k < i ==> nonoverlapping((#[trigger] sets@[k]).spec_changes()),
                sets@.len() == distinct_files(all).len(),
                forall|k: int|
                    0 <= k < sets@.len() ==> (#[trigger] sets@[k]).spec_file() == distinct_files(
                        all,
                    )[k],
                forall|k: int|
                    0 <= k < sets@.len() ==> (#[trigger] sets@[k]).spec_changes() == stable_sorted(
                        patches_for(all, sets@[k].spec_file()),
                    ),
            decreases sets@.len() - i,
        {
            let n = sets[i].changes.len();
            if n > 0 {
                let mut q: usize = 0;
                while q < n - 1
                    invariant
                        n == sets@[i as int].spec_changes().len(),
                        i < sets@.len(),
                        q <= n - 1,
                        forall|t: int|
                            0 <= t < q ==> (#[trigger] sets@[i as int].spec_changes()[t]).location.end
                                <= sets@[i as int].spec_changes()[t + 1].location.start,
                        sets@[i as int].spec_changes() == stable_sorted(
                            patches_for(all, sets@[i as int].spec_file()),
                        ),
                        all == changes@,
                        sets@[i as int].spec_file() == distinct_files(all)[i as int],
                        sets@.len() == distinct_files(all).len(),
                    decreases n - q,
                {
                    if sets[i].changes[q].location.end > sets[i].changes[q + 1].location.start {
                        proof {
                            let bad = stable_sorted(
                                patches_for(all, distinct_files(all)[i as int]),
                            );
                            assert(bad[q as int].location.end > bad[q as int + 1].location.start);
                            assert(!nonoverlapping(bad));
                            assert(exists|w: int|
                                0 <= w < distinct_files(all).len() && !nonoverlapping(
                                    #[trigger] stable_sorted(
                                        patches_for(all, distinct_files(all)[w]),
                                    ),
                                )) by {
                                assert(!nonoverlapping(
                                    stable_sorted(
                                        patches_for(all, distinct_files(all)[i as int]),
                                    ),
                                ));
                            }
                        }
                        return Err(OverlapError);
                    }
                    q = q + 1;
                }
            }
            proof {
                assert(nonoverlapping(sets@[i as int].spec_changes()));
            }
            i = i + 1;
        }
        proof {
            assert forall|k: int| 0 <= k < sets@.len() implies (#[trigger] sets@[k]).wf() by {
                lemma_stable_sorted_sorted(patches_for(all, sets@[k].spec_file()));
            }
        }
        Ok(sets)
    }
}

/// `insert_sorted` keeps a start-sorted sequence sorted.
proof fn lemma_insert_sorted_keeps_sorted(ps: Seq<Patch>, p: Patch)
    requires
        sorted_by_start(ps),
    ensures
        sorted_by_start(insert_sorted(ps, p)),
    decreases ps.len(),
{
    if ps.len() == 0 {
    } else if ps.last().location.start <= p.location.start {
    } else {
        assert(sorted_by_start(ps.drop_last()));
        lemma_insert_sorted_keeps_sorted(ps.drop_last(), p);
        let r = insert_sorted(ps.drop_last(), p);
        lemma_insert_sorted_multiset(ps.drop_last(), p);
        assert forall|i: int, j: int|
            0 <= i <= j < r.push(ps.last()).len() implies (#[trigger] r.push(ps.last())[i]).location.start
            <= (#[trigger] r.push(ps.last())[j]).location.start by {
            if j < r.len() {
            } else {
                if i < r.len() {
                    broadcast use vstd::seq_lib::group_to_multiset_ensures;
                    assert(r.to_multiset().contains(r[i]));
                    assert(ps.drop_last().push(p).to_multiset().contains(r[i]));
                    let s2 = ps.drop_last().push(p);
                    let w = choose|w: int| 0 <= w < s2.len() && s2[w] == r[i];
                    if w < ps.len() - 1 {
                        assert(ps[w].location.start <= ps.last().location.start);
                    }
                }
            }
        }
    }
}

/// `insert_sorted` adds exactly the inserted patch to the sequence's contents.
proof fn lemma_insert_sorted_multiset(ps: Seq<Patch>, p: Patch)
    ensures
        insert_sorted(ps, p).to_multiset() == ps.push(p).to_multiset(),
    decreases ps.len(),
{
    broadcast use vstd::seq_lib::group_to_multiset_ensures;

    if ps.len() == 0 {
        assert(insert_sorted(ps, p) =~= ps.push(p));
    } else if ps.last().location.start <= p.location.start {
    } else {
        lemma_insert_sorted_multiset(ps.drop_last(), p);
        assert(ps.drop_last().push(ps.last()) =~= ps);
        assert(insert_sorted(ps, p).to_multiset() =~= ps.push(p).to_multiset()) by {
            assert(insert_sorted(ps, p).to_multiset() == insert_sorted(
                ps.drop_last(),
                p,
            ).to_multiset().insert(ps.last()));
            assert(ps.drop_last().push(p).to_multiset().insert(ps.last())
                == ps.drop_last().push(p).push(ps.last()).to_multiset());
            vstd::seq_lib::lemma_multiset_commutative(ps.drop_last().push(p), seq![ps.last()]);
            vstd::seq_lib::lemma_multiset_commutative(ps.drop_last().push(ps.last()), seq![p]);
            assert(ps.drop_last().push(p).push(ps.last()) =~= ps.drop_last().push(p) + seq![
                ps.last()
            ]);
            assert(ps.drop_last().push(ps.last()).push(p) =~= ps.drop_last().push(ps.last())
                + seq![p]);
        }
    }
}

/// The stable sort is sorted.
pub proof fn lemma_stable_sorted_sorted(ps: Seq<Patch>)
    ensures
        sorted_by_start(stable_sorted(ps)),
    decreases ps.len(),
{
    if ps.len() > 0 {
        lemma_stable_sorted_sorted(ps.drop_last());
        lemma_insert_sorted_keeps_sorted(stable_sorted(ps.drop_last()), ps.last());
    }
}

/// The stable sort is a permutation: it keeps exactly the input's patches.
pub proof fn lemma_stable_sorted_multiset(ps: Seq<Patch>)
    ensures
        stable_sorted(ps).to_multiset() == ps.to_multiset(),
    decreases ps.len(),
{
    broadcast use vstd::seq_lib::group_to_multiset_ensures;

    if ps.len() > 0 {
        lemma_stable_sorted_multiset(ps.drop_last());
        lemma_insert_sorted_multiset(stable_sorted(ps.drop_last()), ps.last());
        assert(ps.drop_last().push(ps.last()) =~= ps);
        assert(stable_sorted(ps.drop_last()).push(ps.last()).to_multiset()
            == stable_sorted(ps.drop_last()).to_multiset().insert(ps.last()));
    }
}

/// The contents of a file after applying `ps`, read left to right: for each
/// patch, the untouched bytes since the previous patch, then the patch's
/// bytes in place of the replaced range; then the tail of the file.
pub open spec fn applied_from(content: Seq<u8>, ps: Seq<Patch>, from: int) -> Seq<u8>
    decreases ps.len(),
{
    if ps.len() == 0 {
        content.subrange(from, content.len() as int)
    } else {
        content.subrange(from, ps.first().location.start as int) + ps.first().bytes@
            + applied_from(content, ps.drop_first(), ps.first().location.end as int)
    }
}

/// Append every byte of `src` to `dst`.
pub(crate) fn push_bytes(dst: &mut Vec<u8>, src: &[u8])
    ensures
        final(dst)@ == old(dst)@ + src@,
{
    let ghost orig = dst@;
    let mut i: usize = 0;
    while i < src.len()
        invariant
            i <= src@.len(),
            dst@ == orig + src@.take(i as int),
        decreases src@.len() - i,
    {
        dst.push(src[i]);
        proof {
            assert(orig + src@.take(i as int) + seq![src@[i as int]] =~= orig + src@.take(
                i as int + 1,
            ));
        }
        i = i + 1;
    }
    proof {
        assert(orig + src@.take(src@.len() as int) =~= orig + src@);
    }
}

impl FileChangeSet {
    /// The name of the file this set of changes targets.
    pub fn file_name(&self) -> (r: &String)
        ensures
            r@ == self.spec_file(),
    {
        &self.file
    }

    /// How many patches this set carries.
    pub fn len(&self) -> (n: usize)
        ensures
            n == self.spec_changes().len(),
    {
        self.changes.len()
    }

    /// The patches of this set, for callers that must check their bounds
    /// against a buffer before applying them.
    pub fn patches(&self) -> (r: &Vec<Patch>)
        ensures
            r@ == self.spec_changes(),
    {
        &self.changes
    }

    /// Rewrite one file's contents in a single pass: because the patches are
    /// sorted and non-overlapping, the result is the untouched stretches of
    /// `content` interleaved with each patch's replacement bytes.
    pub fn apply_to(&self, content: &[u8]) -> (r: Vec<u8>)
        requires
            self.wf(),
            forall|i: int|
                0 <= i < self.spec_changes().len() ==> (#[trigger] self.spec_changes()[i]).in_bounds(
                    content@.len() as int,
                ),
        ensures
            r@ == applied_from(content@, self.spec_changes(), 0),
    {
        let ghost sc = self.spec_changes();
        let mut out: Vec<u8> = Vec::new();
        let mut pos: usize = 0;
        let mut i: usize = 0;
        proof {
            assert(sc.skip(0) =~= sc);
            assert(Seq::<u8>::empty() + applied_from(content@, sc, 0) =~= applied_from(
                content@,
                sc,
                0,
            ));
        }
        while i < self.changes.len()
            invariant
                sc == self.spec_changes(),
                self.wf(),
                forall|k: int|
                    0 <= k < sc.len() ==> (#[trigger] sc[k]).in_bounds(content@.len() as int),
                i <= sc.len(),
                pos <= content@.len(),
                i < sc.len() ==> pos <= sc[i as int].location.start,
                applied_from(content@, sc, 0) == out@ + applied_from(
                    content@,
                    sc.skip(i as int),
                    pos as int,
                ),
            decreases sc.len() - i,
        {
            let start = self.changes[i].location.start;
            let end = self.changes[i].location.end;
            let ghost pre = out@;
            push_bytes(&mut out, vstd::slice::slice_subrange(content, pos, start));
            push_bytes(&mut out, self.changes[i].bytes.as_slice());
            proof {
                let rest = sc.skip(i as int);
                assert(rest.first() == sc[i as int]);
                assert(rest.drop_first() =~= sc.skip(i as int + 1));
                assert(applied_from(content@, rest, pos as int) == content@.subrange(
                    pos as int,
                    start as int,
                ) + sc[i as int].bytes@ + applied_from(
                    content@,
                    sc.skip(i as int + 1),
                    end as int,
                ));
                assert(out@ =~= pre + content@.subrange(pos as int, start as int)
                    + sc[i as int].bytes@);
                assert(applied_from(content@, sc, 0) == out@ + applied_from(
                    content@,
                    sc.skip(i as int + 1),
                    end as int,
                )) by {
                    assert(pre + (content@.subrange(pos as int, start as int)
                        + sc[i as int].bytes@ + applied_from(
                        content@,
                        sc.skip(i as int + 1),
                        end as int,
                    )) =~= pre + content@.subrange(pos as int, start as int)
                        + sc[i as int].bytes@ + applied_from(
                        content@,
                        sc.skip(i as int + 1),
                        end as int,
                    ));
                }
                if i + 1 < sc.len() {
                    assert(sc[i as int].location.end <= sc[i as int + 1].location.start);
                }
            }
            pos = end;
            i = i + 1;
        }
        push_bytes(&mut out, vstd::slice::slice_subrange(content, pos, content.len()));
        proof {
            assert(sc.skip(i as int) =~= Seq::<Patch>::empty());
            assert(applied_from(content@, sc.skip(i as int), pos as int) == content@.subrange(
                pos as int,
                content@.len() as int,
            ));
        }
        out
    }
}

/// No two patches share a start offset.
pub open spec fn distinct_starts(ps: Seq<Patch>) -> bool {
    forall|i: int, j: int|
        0 <= i < ps.len() && 0 <= j < ps.len() && i != j ==> (#[trigger] ps[i]).location.start
            != (#[trigger] ps[j]).location.start
}

/// Any two patches are disjoint: one ends at or before the other starts.
pub open spec fn pairwise_separated(ps: Seq<Patch>) -> bool {
    forall|i: int, j: int|
        0 <= i < ps.len() && 0 <= j < ps.len() && i != j ==> (#[trigger] ps[i]).location.end
            <= (#[trigger] ps[j]).location.start || ps[j].location.end <= ps[i].location.start
}

/// A value standing at two positions of a sequence counts at least twice in
/// its contents.
proof fn lemma_two_indices_count(s: Seq<Patch>, i: int, j: int)
    requires
        0 <= i < j < s.len(),
        s[i] == s[j],
    ensures
        s.to_multiset().count(s[i]) >= 2,
{
    broadcast use vstd::seq_lib::group_to_multiset_ensures;
    broadcast use vstd::multiset::group_multiset_axioms;

    let r = s.remove(i);
    assert(r.to_multiset() =~= s.to_multiset().remove(s[i]));
    assert(r[j - 1] == s[j]);
    assert(r.contains(s[j]));
    assert(r.to_multiset().count(s[j]) > 0);
}

/// A value counted at least twice stands at two positions.
proof fn lemma_count_two_indices(s: Seq<Patch>, x: Patch)
    requires
        s.to_multiset().count(x) >= 2,
    ensures
        exists|i: int, j: int| 0 <= i < j < s.len() && s[i] == x && s[j] == x,
{
    broadcast use vstd::seq_lib::group_to_multiset_ensures;
    broadcast use vstd::multiset::group_multiset_axioms;

    assert(s.contains(x));
    let i = choose|i: int| 0 <= i < s.len() && s[i] == x;
    let r = s.remove(i);
    assert(r.to_multiset() =~= s.to_multiset().remove(x));
    assert(r.to_multiset().count(x) >= 1);
    assert(r.contains(x));
    let k = choose|k: int| 0 <= k < r.len() && r[k] == x;
    if k < i {
        assert(s[k] == x);
        assert(0 <= k < i < s.len() && s[k] == x && s[i] == x);
    } else {
        assert(s[k + 1] == x);
        assert(0 <= i < k + 1 < s.len() && s[i] == x && s[k + 1] == x);
    }
}

/// Distinct start offsets carry over to any reordering of the patches.
proof fn lemma_distinct_starts_permuted(s: Seq<Patch>, t: Seq<Patch>)
    requires
        s.to_multiset() == t.to_multiset(),
        distinct_starts(s),
    ensures
        distinct_starts(t),
{
    broadcast use vstd::seq_lib::group_to_multiset_ensures;

    assert forall|i: int, j: int|
        0 <= i < t.len() && 0 <= j < t.len() && i != j implies (#[trigger] t[i]).location.start
        != (#[trigger] t[j]).location.start by {
        let (a, b) = if i < j {
            (i, j)
        } else {
            (j, i)
        };
        if t[a] == t[b] {
            lemma_two_indices_count(t, a, b);
            lemma_count_two_indices(s, t[a]);
            let (p, q) = choose|p: int, q: int|
                0 <= p < q < s.len() && s[p] == t[a] && s[q] == t[a];
            assert(s[p].location.start != s[q].location.start);
        } else {
            assert(t.contains(t[a]) && t.contains(t[b]));
            assert(s.to_multiset().count(t[a]) > 0 && s.to_multiset().count(t[b]) > 0);
            assert(s.contains(t[a]) && s.contains(t[b]));
            let p = choose|p: int| 0 <= p < s.len() && s[p] == t[a];
            let q = choose|q: int| 0 <= q < s.len() && s[q] == t[b];
            assert(s[p].location.start != s[q].location.start);
        }
    }
}

/// Two sequences of patches that are sorted by start, hold the same patches,
/// and have pairwise distinct starts are the same sequence.
proof fn lemma_sorted_multiset_unique(a: Seq<Patch>, b: Seq<Patch>)
    requires
        sorted_by_start(a),
        sorted_by_start(b),
        a.to_multiset() == b.to_multiset(),
        distinct_starts(a),
    ensures
        a == b,
    decreases a.len(),
{
    broadcast use vstd::seq_lib::group_to_multiset_ensures;

    a.to_multiset_ensures();
    b.to_multiset_ensures();
    if a.len() == 0 {
        assert(b.len() == 0);
        assert(a =~= b);
    } else {
        assert(b.len() == a.len());
        assert(a.contains(a[0]));
        assert(b.to_multiset().count(a[0]) > 0);
        assert(b.contains(a[0]));
        let w = choose|w: int| 0 <= w < b.len() && b[w] == a[0];
        assert(b[0].location.start <= a[0].location.start);
        assert(a.to_multiset().count(b[0]) > 0);
        assert(a.contains(b[0]));
        let v = choose|v: int| 0 <= v < a.len() && a[v] == b[0];
        assert(a[0].location.start <= a[v].location.start);
        assert(a[0].location.start == b[0].location.start);
        if v != 0 {
            assert(a[v].location.start != a[0].location.start);
            assert(false);
        }
        assert(a[0] == b[0]);
        let ar = a.remove(0);
        let br = b.remove(0);
        assert(ar.to_multiset() =~= a.to_multiset().remove(a[0]));
        assert(br.to_multiset() =~= b.to_multiset().remove(b[0]));
        assert(sorted_by_start(ar)) by {
            assert(forall|i: int| 0 <= i < ar.len() ==> ar[i] == a[i + 1]);
        }
        assert(sorted_by_start(br)) by {
            assert(forall|i: int| 0 <= i < br.len() ==> br[i] == b[i + 1]);
        }
        assert(distinct_starts(ar)) by {
            assert(forall|i: int| 0 <= i < ar.len() ==> ar[i] == a[i + 1]);
        }
        lemma_sorted_multiset_unique(ar, br);
        assert(a =~= b) by {
            assert(forall|i: int| 1 <= i < a.len() ==> a[i] == ar[i - 1] && b[i] == br[i - 1]);
        }
    }
}

/// LAW: for a set of pairwise separated patches on one file whose start
/// offsets are pairwise distinct, the file content produced by sorting and
/// applying them does not depend on the order in which they arrived: any two
/// arrival orders `a` and `b` of the same patches sort to the same sequence
/// and hence rewrite the file identically.
pub proof fn lemma_apply_order_independent(content: Seq<u8>, a: Seq<Patch>, b: Seq<Patch>)
    requires
        a.to_multiset() == b.to_multiset(),
        pairwise_separated(a),
        distinct_starts(a),
    ensures
        stable_sorted(a) == stable_sorted(b),
        applied_from(content, stable_sorted(a), 0) == applied_from(content, stable_sorted(b), 0),
{
    lemma_stable_sorted_sorted(a);
    lemma_stable_sorted_sorted(b);
    lemma_stable_sorted_multiset(a);
    lemma_stable_sorted_multiset(b);
    lemma_distinct_starts_permuted(a, stable_sorted(a));
    lemma_sorted_multiset_unique(stable_sorted(a), stable_sorted(b));
}

/// In a sorted, non-overlapping sequence of well-formed patches, any earlier
/// patch ends at or before any later one starts.
proof fn lemma_sorted_nonoverlap_chain(ps: Seq<Patch>, p: int, q: int)
    requires
        sorted_by_start(ps),
        nonoverlapping(ps),
        forall|k: int| 0 <= k < ps.len() ==> (#[trigger] ps[k]).wf(),
        0 <= p < q < ps.len(),
    ensures
        ps[p].location.end <= ps[q].location.start,
    decreases q - p,
{
    if q == p + 1 {
    } else {
        lemma_sorted_nonoverlap_chain(ps, p, q - 1);
        assert(ps[q - 1].location.end <= ps[q].location.start);
    }
}

/// The file of any change occurs among the distinct files.
proof fn lemma_file_in_distinct(changes: Seq<Change>, i: int)
    requires
        0 <= i < changes.len(),
    ensures
        distinct_files(changes).contains(changes[i].file@),
    decreases changes.len(),
{
    let prev = distinct_files(changes.drop_last());
    if i == changes.len() - 1 {
        if prev.contains(changes.last().file@) {
        } else {
            assert(distinct_files(changes).last() == changes.last().file@);
        }
    } else {
        lemma_file_in_distinct(changes.drop_last(), i);
        assert(changes.drop_last()[i] == changes[i]);
        let w = choose|w: int| 0 <= w < prev.len() && prev[w] == changes[i].file@;
        if prev.contains(changes.last().file@) {
            assert(distinct_files(changes)[w] == changes[i].file@);
        } else {
            assert(distinct_files(changes)[w] == changes[i].file@);
        }
    }
}

/// Changes `i` and `j` (`i` before `j`, same file) put their two patches into
/// that file's patch list, in that order.
proof fn lemma_patches_for_pair(changes: Seq<Change>, f: Seq<char>, i: int, j: int)
    requires
        0 <= i < j < changes.len(),
        changes[i].file@ == f,
        changes[j].file@ == f,
    ensures
        exists|p: int, q: int|
            0 <= p < q < patches_for(changes, f).len() && patches_for(changes, f)[p]
                == changes[i].patch && patches_for(changes, f)[q] == changes[j].patch,
    decreases changes.len(),
{
    let pf = patches_for(changes, f);
    let prev = patches_for(changes.drop_last(), f);
    if j == changes.len() - 1 {
        lemma_patches_for_single(changes.drop_last(), f, i);
        let p = choose|p: int|
            0 <= p < prev.len() && prev[p] == changes.drop_last()[i].patch;
        assert(pf[p] == changes[i].patch);
        assert(pf.last() == changes[j].patch);
        assert(0 <= p < pf.len() - 1 && pf[p] == changes[i].patch && pf[pf.len() - 1]
            == changes[j].patch);
    } else {
        lemma_patches_for_pair(changes.drop_last(), f, i, j);
        let (p, q) = choose|p: int, q: int|
            0 <= p < q < prev.len() && prev[p] == changes.drop_last()[i].patch && prev[q]
                == changes.drop_last()[j].patch;
        assert(pf[p] == changes[i].patch && pf[q] == changes[j].patch);
    }
}

/// A change with file `f` puts its patch into that file's patch list.
proof fn lemma_patches_for_single(changes: Seq<Change>, f: Seq<char>, i: int)
    requires
        0 <= i < changes.len(),
        changes[i].file@ == f,
    ensures
        exists|p: int|
            0 <= p < patches_for(changes, f).len() && patches_for(changes, f)[p]
                == changes[i].patch,
    decreases changes.len(),
{
    let pf = patches_for(changes, f);
    if i == changes.len() - 1 {
        assert(pf.last() == changes[i].patch);
        assert(0 <= pf.len() - 1 < pf.len() && pf[pf.len() - 1] == changes[i].patch);
    } else {
        lemma_patches_for_single(changes.drop_last(), f, i);
        let prev = patches_for(changes.drop_last(), f);
        let p = choose|p: int|
            0 <= p < prev.len() && prev[p] == changes.drop_last()[i].patch;
        assert(pf[p] == changes[i].patch);
    }
}

/// LAW: two changes whose well-formed patches target the same file with
/// genuinely intersecting byte ranges make grouping fail for the whole run:
/// `FileChangeSet::group` then returns an error and produces no change set,
/// so nothing is written to any file.
pub proof fn lemma_overlapping_rejected(changes: Seq<Change>, i: int, j: int)
    requires
        0 <= i < changes.len(),
        0 <= j < changes.len(),
        i != j,
        changes[i].file@ == changes[j].file@,
        forall|k: int| 0 <= k < changes.len() ==> (#[trigger] changes[k].patch).wf(),
        changes[i].patch.location.start < changes[j].patch.location.end,
        changes[j].patch.location.start < changes[i].patch.location.end,
    ensures
        exists|w: int|
            0 <= w < distinct_files(changes).len() && !nonoverlapping(
                #[trigger] stable_sorted(patches_for(changes, distinct_files(changes)[w])),
            ),
{
    broadcast use vstd::seq_lib::group_to_multiset_ensures;

    let f = changes[i].file@;
    let (a, b) = if i < j {
        (i, j)
    } else {
        (j, i)
    };
    lemma_patches_for_pair(changes, f, a, b);
    let pf = patches_for(changes, f);
    let (p, q) = choose|p: int, q: int|
        0 <= p < q < pf.len() && pf[p] == changes[a].patch && pf[q] == changes[b].patch;
    let sorted = stable_sorted(pf);
    lemma_stable_sorted_sorted(pf);
    lemma_stable_sorted_multiset(pf);
    assert(forall|k: int| 0 <= k < pf.len() ==> (#[trigger] pf[k]).wf()) by {
        lemma_patches_for_all_wf(changes, f);
    }
    assert(forall|k: int| 0 <= k < sorted.len() ==> (#[trigger] sorted[k]).wf()) by {
        assert forall|k: int| 0 <= k < sorted.len() implies (#[trigger] sorted[k]).wf() by {
            assert(sorted.contains(sorted[k]));
            assert(pf.to_multiset().count(sorted[k]) > 0);
            assert(pf.contains(sorted[k]));
        }
    }
    // Both patches stand somewhere in the sorted sequence.
    let (sp, sq): (int, int) = if pf[p] == pf[q] {
        lemma_two_indices_count(pf, p, q);
        lemma_count_two_indices(sorted, pf[p]);
        choose|x: int, y: int| 0 <= x < y < sorted.len() && sorted[x] == pf[p] && sorted[y] == pf[q]
    } else {
        assert(pf.contains(pf[p]) && pf.contains(pf[q]));
        assert(sorted.to_multiset().count(pf[p]) > 0 && sorted.to_multiset().count(pf[q]) > 0);
        assert(sorted.contains(pf[p]) && sorted.contains(pf[q]));
        let x = choose|x: int| 0 <= x < sorted.len() && sorted[x] == pf[p];
        let y = choose|y: int| 0 <= y < sorted.len() && sorted[y] == pf[q];
        if x < y {
            (x, y)
        } else {
            (y, x)
        }
    };
    assert(0 <= sp < sq < sorted.len());
    assert((sorted[sp] == pf[p] && sorted[sq] == pf[q]) || (sorted[sp] == pf[q] && sorted[sq]
        == pf[p]));
    if nonoverlapping(sorted) {
        lemma_sorted_nonoverlap_chain(sorted, sp, sq);
        assert(false);
    }
    lemma_file_in_distinct(changes, i);
    let w = choose|w: int|
        0 <= w < distinct_files(changes).len() && distinct_files(changes)[w] == f;
    assert(!nonoverlapping(stable_sorted(patches_for(changes, distinct_files(changes)[w]))));
}

/// Every patch put into a file's patch list is a patch of some change.
proof fn lemma_patches_for_all_wf(changes: Seq<Change>, f: Seq<char>)
    requires
        forall|k: int| 0 <= k < changes.len() ==> (#[trigger] changes[k].patch).wf(),
    ensures
        forall|k: int|
            0 <= k < patches_for(changes, f).len() ==> (#[trigger] patches_for(changes, f)[k]).wf(),
    decreases changes.len(),
{
    if changes.len() > 0 {
        assert(forall|k: int|
            0 <= k < changes.len() - 1 ==> #[trigger] changes.drop_last()[k] == changes[k]);
        lemma_patches_for_all_wf(changes.drop_last(), f);
        let prev = patches_for(changes.drop_last(), f);
        assert forall|k: int|
            0 <= k < patches_for(changes, f).len() implies (#[trigger] patches_for(changes, f)[k]).wf() by {
            if k < prev.len() {
                assert(patches_for(changes, f)[k] == prev[k]);
            } else {
                assert(patches_for(changes, f)[k] == changes.last().patch);
            }
        }
    }
}

} // verus!
