use crate::aqfs::{files_match_map, Error, File, FileMetaView, StorageEntity};
use vstd::prelude::*;

verus! {

/// A file listing folded into a backend's mapping: one insert per listed
/// file, in listing order.
pub open spec fn fold_in<F: File>(
    m: Map<Seq<Seq<char>>, (FileMetaView, Seq<u8>)>,
    fs: Seq<F>,
) -> Map<Seq<Seq<char>>, (FileMetaView, Seq<u8>)>
    decreases fs.len(),
{
    if fs.len() == 0 {
        m
    } else {
        fold_in(
            m.insert(
                fs.first().spec_meta().path,
                (fs.first().spec_meta(), fs.first().spec_content()),
            ),
            fs.drop_first(),
        )
    }
}

proof fn lemma_fold_in_snoc<F: File>(
    m: Map<Seq<Seq<char>>, (FileMetaView, Seq<u8>)>,
    fs: Seq<F>,
    x: F,
)
    ensures
        fold_in(m, fs.push(x)) == fold_in(m, fs).insert(
            x.spec_meta().path,
            (x.spec_meta(), x.spec_content()),
        ),
    decreases fs.len(),
{
    if fs.len() == 0 {
        reveal_with_fuel(fold_in, 3);
        assert(fs.push(x).drop_first() =~= Seq::<F>::empty());
        assert(fs.push(x).first() == x);
    } else {
        assert(fs.push(x).drop_first() =~= fs.drop_first().push(x));
        assert(fs.push(x).first() == fs.first());
        lemma_fold_in_snoc(
            m.insert(fs.first().spec_meta().path, (fs.first().spec_meta(), fs.first().spec_content())),
            fs.drop_first(),
            x,
        );
    }
}

/// Folding a faithful listing of a mapping into another mapping yields
/// their union, the listed side winning at common paths.
proof fn lemma_fold_in_union<F: File>(
    m: Map<Seq<Seq<char>>, (FileMetaView, Seq<u8>)>,
    fs: Seq<F>,
    m0: Map<Seq<Seq<char>>, (FileMetaView, Seq<u8>)>,
)
    requires
        files_match_map(fs, m0),
    ensures
        fold_in(m, fs) == m.union_prefer_right(m0),
    decreases fs.len(),
{
    if fs.len() == 0 {
        assert forall|p: Seq<Seq<char>>| !(#[trigger] m0.contains_key(p)) by {
            if m0.contains_key(p) {
                let i = choose|i: int|
                    0 <= i < fs.len() && (#[trigger] fs[i].spec_meta()).path == p;
            }
        }
        assert(fold_in(m, fs) =~= m.union_prefer_right(m0));
    } else {
        let f = fs.first();
        let p0 = f.spec_meta().path;
        let e0 = (f.spec_meta(), f.spec_content());
        let m2 = m.insert(p0, e0);
        let fs2 = fs.drop_first();
        let m02 = m0.remove(p0);
        assert(fs[0] == f);
        assert(m0.contains_key(p0) && m0[p0] == e0);
        assert(files_match_map(fs2, m02)) by {
            assert forall|i: int| 0 <= i < fs2.len() implies m02.contains_key(
                (#[trigger] fs2[i]).spec_meta().path,
            ) && m02[fs2[i].spec_meta().path] == (fs2[i].spec_meta(), fs2[i].spec_content()) by {
                assert(fs2[i] == fs[i + 1]);
                assert(fs[i + 1].spec_meta().path != fs[0].spec_meta().path);
            }
            assert forall|p: Seq<Seq<char>>| #[trigger] m02.contains_key(p) implies exists|i: int|
                0 <= i < fs2.len() && (#[trigger] fs2[i].spec_meta()).path == p by {
                assert(m0.contains_key(p));
                let i = choose|i: int|
                    0 <= i < fs.len() && (#[trigger] fs[i].spec_meta()).path == p;
                assert(p != p0);
                assert(i != 0);
                assert(fs2[i - 1] == fs[i]);
                assert(fs2[i - 1].spec_meta().path == p);
            }
            assert forall|i: int, j: int|
                0 <= i < fs2.len() && 0 <= j < fs2.len() && i != j implies (
            #[trigger] fs2[i].spec_meta()).path != (#[trigger] fs2[j].spec_meta()).path by {
                assert(fs2[i] == fs[i + 1]);
                assert(fs2[j] == fs[j + 1]);
            }
        }
        lemma_fold_in_union(m2, fs2, m02);
        assert(m2.union_prefer_right(m02) =~= m.union_prefer_right(m0));
    }
}

/// One interrupted copying pass: the destination holds its old mapping
/// with some prefix of a faithful listing of `src` folded in; the source of
/// the pass is untouched by it.
pub open spec fn partial_copy<F: File>(
    dst_old: Map<Seq<Seq<char>>, (FileMetaView, Seq<u8>)>,
    dst_new: Map<Seq<Seq<char>>, (FileMetaView, Seq<u8>)>,
    src: Map<Seq<Seq<char>>, (FileMetaView, Seq<u8>)>,
) -> bool {
    exists|fs: Seq<F>, k: int|
        files_match_map(fs, src) && 0 <= k <= fs.len() && dst_new == fold_in(dst_old, fs.take(k))
}

/// Folding only inserts: every path of the old mapping is still there.
proof fn lemma_fold_in_contains<F: File>(
    m: Map<Seq<Seq<char>>, (FileMetaView, Seq<u8>)>,
    fs: Seq<F>,
    p: Seq<Seq<char>>,
)
    requires
        m.contains_key(p),
    ensures
        fold_in(m, fs).contains_key(p),
    decreases fs.len(),
{
    if fs.len() > 0 {
        lemma_fold_in_contains(
            m.insert(fs.first().spec_meta().path, (fs.first().spec_meta(), fs.first().spec_content())),
            fs.drop_first(),
            p,
        );
    }
}

/// The generic two-way replicator: composes any two backends through the
/// storage contract alone, with no shared file type.
pub struct StorageSyncer<ST0, ST1, F0, F1> where
    ST0: StorageEntity<F0>,
    ST1: StorageEntity<F1>,
    F0: File,
    F1: File,
 {
    pub st0: ST0,
    pub st1: ST1,
    pub _marker0: core::marker::PhantomData<F0>,
    pub _marker1: core::marker::PhantomData<F1>,
}

impl<
    ST0: StorageEntity<F0>,
    ST1: StorageEntity<F1>,
    F0: File,
    F1: File,
> StorageSyncer<ST0, ST1, F0, F1> {
    pub fn new(st0: ST0, st1: ST1) -> (r: Self)
        ensures
            r.st0 == st0,
            r.st1 == st1,
    {
        Self {
            st0,
            st1,
            _marker0: core::marker::PhantomData,
            _marker1: core::marker::PhantomData,
        }
    }

    /// Two-pass full copy: every file listed by the first backend is
    /// created on the second, then every file then listed by the second is
    /// created on the first — unconditionally, with no existence or
    /// content check before either pass. On success both backends hold the
    /// union of the two original mappings, the first backend's entry
    /// winning wherever both held a path.
    ///
    /// The first failing call aborts the sync with that call's error; the
    /// passes are not atomic and nothing is rolled back: the interrupted
    /// side keeps its old mapping with a prefix of the listing folded in,
    /// the other side is exactly as the completed passes left it, and no
    /// entry is ever removed from either backend.
    pub fn sync(&mut self) -> (r: Result<(), Error>)
        ensures
            r is Ok ==> final(self).st0.spec_files() == old(self).st1.spec_files().union_prefer_right(
                old(self).st0.spec_files(),
            ) && final(self).st1.spec_files() == old(self).st1.spec_files().union_prefer_right(
                old(self).st0.spec_files(),
            ),
            r is Err ==> ({
                let st0_old = old(self).st0.spec_files();
                let st1_old = old(self).st1.spec_files();
                let st0_new = final(self).st0.spec_files();
                let st1_new = final(self).st1.spec_files();
                ||| (st0_new == st0_old && st1_new == st1_old)
                ||| (st0_new == st0_old && partial_copy::<F0>(st1_old, st1_new, st0_old))
                ||| (st1_new == st1_old.union_prefer_right(st0_old) && partial_copy::<F1>(
                    st0_old,
                    st0_new,
                    st1_new,
                ))
            }),
            r is Err ==> forall|p: Seq<Seq<char>>|
                old(self).st0.spec_files().contains_key(p)
                    ==> #[trigger] final(self).st0.spec_files().contains_key(p),
            r is Err ==> forall|p: Seq<Seq<char>>|
                old(self).st1.spec_files().contains_key(p)
                    ==> #[trigger] final(self).st1.spec_files().contains_key(p),
    {
        let ghost m0 = self.st0.spec_files();
        let ghost m1 = self.st1.spec_files();
        let mut files0 = match self.st0.list_files() {
            Ok(f) => f,
            Err(e) => {
                return Err(e);
            },
        };
        let ghost fsv0 = files0@;
        let total0: usize = files0.len();
        proof {
            assert(fsv0.take(0) =~= Seq::<F0>::empty());
            assert(fsv0.skip(0) =~= fsv0);
        }
        let mut k: usize = 0;
        while files0.len() > 0
            invariant
                k + files0@.len() == total0,
                total0 == fsv0.len(),
                files0@ =~= fsv0.skip(k as int),
                m0 == old(self).st0.spec_files(),
                m1 == old(self).st1.spec_files(),
                files_match_map(fsv0, m0),
                self.st0.spec_files() == m0,
                self.st1.spec_files() == fold_in(m1, fsv0.take(k as int)),
            decreases files0@.len(),
        {
            let ghost old_files = files0@;
            let f = files0.remove(0);
            proof {
                assert(f == fsv0[k as int]);
                assert(old_files.remove(0) =~= old_files.drop_first());
                assert(old_files.drop_first() =~= fsv0.skip(k + 1));
                lemma_fold_in_snoc(m1, fsv0.take(k as int), f);
                assert(fsv0.take(k as int).push(f) =~= fsv0.take(k + 1));
            }
            match self.st1.create_file(f) {
                Ok(()) => {},
                Err(e) => {
                    proof {
                        assert(files_match_map(fsv0, m0) && 0 <= k as int <= fsv0.len()
                            && self.st1.spec_files() == fold_in(m1, fsv0.take(k as int)));
                        assert(partial_copy::<F0>(m1, self.st1.spec_files(), m0));
                        assert forall|p: Seq<Seq<char>>| m1.contains_key(p) implies self.st1.spec_files().contains_key(p) by {
                            lemma_fold_in_contains(m1, fsv0.take(k as int), p);
                        }
                    }
                    return Err(e);
                },
            }
            k = k + 1;
        }
        proof {
            assert(fsv0.take(total0 as int) =~= fsv0);
            lemma_fold_in_union(m1, fsv0, m0);
        }
        let ghost mu = m1.union_prefer_right(m0);
        let mut files1 = match self.st1.list_files() {
            Ok(f) => f,
            Err(e) => {
                proof {
                    assert(fsv0.take(fsv0.len() as int) =~= fsv0);
                    assert(files_match_map(fsv0, m0) && 0 <= fsv0.len() as int <= fsv0.len()
                        && self.st1.spec_files() == fold_in(m1, fsv0.take(fsv0.len() as int)));
                    assert(partial_copy::<F0>(m1, self.st1.spec_files(), m0));
                    assert forall|p: Seq<Seq<char>>| m1.contains_key(p) implies self.st1.spec_files().contains_key(p) by {
                        lemma_fold_in_contains(m1, fsv0, p);
                    }
                }
                return Err(e);
            },
        };
        let ghost fsv1 = files1@;
        let total1: usize = files1.len();
        proof {
            assert(fsv1.take(0) =~= Seq::<F1>::empty());
            assert(fsv1.skip(0) =~= fsv1);
        }
        let mut k1: usize = 0;
        while files1.len() > 0
            invariant
                k1 + files1@.len() == total1,
                total1 == fsv1.len(),
                files1@ =~= fsv1.skip(k1 as int),
                m0 == old(self).st0.spec_files(),
                m1 == old(self).st1.spec_files(),
                mu == m1.union_prefer_right(m0),
                files_match_map(fsv1, mu),
                self.st1.spec_files() == mu,
                self.st0.spec_files() == fold_in(m0, fsv1.take(k1 as int)),
            decreases files1@.len(),
        {
            let ghost old_files = files1@;
            let f = files1.remove(0);
            proof {
                assert(f == fsv1[k1 as int]);
                assert(old_files.remove(0) =~= old_files.drop_first());
                assert(old_files.drop_first() =~= fsv1.skip(k1 + 1));
                lemma_fold_in_snoc(m0, fsv1.take(k1 as int), f);
                assert(fsv1.take(k1 as int).push(f) =~= fsv1.take(k1 + 1));
            }
            match self.st0.create_file(f) {
                Ok(()) => {},
                Err(e) => {
                    proof {
                        assert(files_match_map(fsv1, mu) && 0 <= k1 as int <= fsv1.len()
                            && self.st0.spec_files() == fold_in(m0, fsv1.take(k1 as int)));
                        assert(partial_copy::<F1>(m0, self.st0.spec_files(), mu));
                        assert forall|p: Seq<Seq<char>>| m0.contains_key(p) implies self.st0.spec_files().contains_key(p) by {
                            lemma_fold_in_contains(m0, fsv1.take(k1 as int), p);
                        }
                    }
                    return Err(e);
                },
            }
            k1 = k1 + 1;
        }
        proof {
            assert(fsv1.take(total1 as int) =~= fsv1);
            lemma_fold_in_union(m0, fsv1, mu);
            assert(m0.union_prefer_right(mu) =~= mu);
        }
        Ok(())
    }
}

} // verus!
