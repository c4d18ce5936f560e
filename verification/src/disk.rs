use vstd::prelude::*;
use vstd::string::StringExecFns;

use crate::error::Error;
use crate::strutil::str_eq;

verus! {

/// A field-for-field copy of a byte buffer.
pub fn copy_bytes(v: &Vec<u8>) -> (r: Vec<u8>)
    ensures
        r@ == v@,
{
    let mut r: Vec<u8> = Vec::new();
    let n = v.len();
    let mut k: usize = 0;
    while k < n
        invariant
            n == v@.len(),
            0 <= k <= n,
            r@ =~= v@.subrange(0, k as int),
        decreases n - k,
    {
        r.push(v[k]);
        proof {
            assert(r@ =~= v@.subrange(0, k as int + 1));
        }
        k = k + 1;
    }
    proof {
        assert(r@ =~= v@);
    }
    r
}

/// The entries of the byte store as mathematical pairs.
pub open spec fn entry_views(s: Seq<(String, Vec<u8>)>) -> Seq<(Seq<char>, Seq<u8>)> {
    s.map_values(|e: (String, Vec<u8>)| (e.0@, e.1@))
}

/// The map an entry list denotes: which byte stream lives at which path.
pub open spec fn disk_map(s: Seq<(Seq<char>, Seq<u8>)>) -> Map<Seq<char>, Seq<u8>>
    decreases s.len(),
{
    if s.len() == 0 {
        Map::<Seq<char>, Seq<u8>>::empty()
    } else {
        disk_map(s.drop_last()).insert(s.last().0, s.last().1)
    }
}

/// The entries whose paths are neither `p` nor `q`.
pub open spec fn without_paths(s: Seq<(Seq<char>, Seq<u8>)>, p: Seq<char>, q: Seq<char>) -> Seq<
    (Seq<char>, Seq<u8>),
>
    decreases s.len(),
{
    if s.len() == 0 {
        Seq::<(Seq<char>, Seq<u8>)>::empty()
    } else {
        let rest = without_paths(s.drop_last(), p, q);
        if s.last().0 == p || s.last().0 == q {
            rest
        } else {
            rest.push(s.last())
        }
    }
}

/// The model of the durable byte store under the storage root: a map from
/// physical paths to byte streams. Writing creates or overwrites; renaming
/// moves a stream atomically, overwriting any stream at the destination.
pub struct Disk {
    files: Vec<(String, Vec<u8>)>,
}

impl View for Disk {
    type V = Map<Seq<char>, Seq<u8>>;

    closed spec fn view(&self) -> Map<Seq<char>, Seq<u8>> {
        disk_map(entry_views(self.files@))
    }
}

impl Disk {
    /// Each path has one entry.
    pub closed spec fn wf(&self) -> bool {
        unique_paths(entry_views(self.files@))
    }

    pub fn new() -> (r: Disk)
        ensures
            r@ =~= Map::<Seq<char>, Seq<u8>>::empty(),
            r.wf(),
    {
        let r = Disk { files: Vec::new() };
        proof {
            assert(entry_views(r.files@) =~= Seq::<(Seq<char>, Seq<u8>)>::empty());
            assert(r@ =~= Map::<Seq<char>, Seq<u8>>::empty());
        }
        r
    }

    fn find_index(&self, path: &str) -> (r: Option<usize>)
        ensures
            r is Some ==> 0 <= r.unwrap() < self.files@.len() && entry_views(
                self.files@,
            )[r.unwrap() as int].0 == path@,
            r is None ==> forall|j: int|
                0 <= j < self.files@.len() ==> (#[trigger] entry_views(self.files@)[j].0) != path@,
    {
        let n = self.files.len();
        let mut k: usize = 0;
        while k < n
            invariant
                n == self.files@.len(),
                0 <= k <= n,
                forall|j: int| 0 <= j < k ==> (#[trigger] entry_views(self.files@)[j].0) != path@,
            decreases n - k,
        {
            if str_eq(self.files[k].0.as_str(), path) {
                return Some(k);
            }
            k = k + 1;
        }
        None
    }

    /// Whether a byte stream lives at the given path.
    pub fn contains_path(&self, path: &str) -> (r: bool)
        requires
            self.wf(),
        ensures
            r == self@.contains_key(path@),
    {
        let idx = self.find_index(path);
        proof {
            match idx {
                Some(i) => lemma_disk_map_index(entry_views(self.files@), i as int),
                None => lemma_disk_map_absent(entry_views(self.files@), path@),
            }
        }
        idx.is_some()
    }

    /// The byte stream at the given path, if one lives there.
    pub fn read(&self, path: &str) -> (r: Option<Vec<u8>>)
        requires
            self.wf(),
        ensures
            r is Some <==> self@.contains_key(path@),
            r is Some ==> r.unwrap()@ == self@[path@],
    {
        let idx = self.find_index(path);
        proof {
            match idx {
                Some(i) => lemma_disk_map_index(entry_views(self.files@), i as int),
                None => lemma_disk_map_absent(entry_views(self.files@), path@),
            }
        }
        match idx {
            Some(i) => Some(copy_bytes(&self.files[i].1)),
            None => None,
        }
    }

    /// Lays the byte stream down at the given path, creating it or
    /// overwriting whatever was there.
    pub fn write(&mut self, path: &str, data: Vec<u8>)
        requires
            old(self).wf(),
        ensures
            final(self).wf(),
            final(self)@ =~= old(self)@.insert(path@, data@),
    {
        let idx = self.find_index(path);
        let ghost prev = entry_views(self.files@);
        match idx {
            Some(i) => {
                let entry = (String::from_str(path), data);
                let ghost ev = (entry.0@, entry.1@);
                self.files.set(i, entry);
                proof {
                    assert(entry_views(self.files@) =~= prev.update(i as int, ev));
                    lemma_disk_map_update(prev, i as int, path@, data@);
                }
            },
            None => {
                let entry = (String::from_str(path), data);
                self.files.push(entry);
                proof {
                    assert(entry_views(self.files@).drop_last() =~= prev);
                    assert(entry_views(self.files@).last() == (path@, data@));
                    assert(self@ =~= old(self)@.insert(path@, data@));
                    lemma_disk_map_absent(prev, path@);
                    assert(forall|j: int|
                        0 <= j < prev.len() ==> (#[trigger] prev[j].0) != path@);
                    assert forall|j: int, k: int|
                        0 <= j < k < entry_views(self.files@).len() implies (#[trigger] entry_views(
                        self.files@,
                    )[j].0) != (#[trigger] entry_views(self.files@)[k].0) by {
                        if k == entry_views(self.files@).len() - 1 {
                            assert(entry_views(self.files@)[j] == prev[j]);
                            assert(entry_views(self.files@)[k] == (path@, data@));
                        } else {
                            assert(entry_views(self.files@)[j] == prev[j]);
                            assert(entry_views(self.files@)[k] == prev[k]);
                        }
                    }
                }
            },
        }
    }

    /// Moves the byte stream at `from` to `to` in one step, overwriting any
    /// stream at `to`; a missing source is a storage-layer failure and moves
    /// nothing.
    pub fn rename(&mut self, from: &str, to: &str) -> (r: Result<(), Error>)
        requires
            old(self).wf(),
        ensures
            final(self).wf(),
            r is Ok <==> old(self)@.contains_key(from@),
            r is Err ==> r.unwrap_err() is Internal && final(self)@ == old(self)@,
            r is Ok ==> final(self)@ =~= old(self)@.remove(from@).insert(to@, old(self)@[from@]),
    {
        let data = match self.read(from) {
            Some(d) => d,
            None => {
                return Err(Error::Internal(String::from_str("Missing byte stream")));
            },
        };
        let ghost prev = entry_views(self.files@);
        let n = self.files.len();
        let mut out: Vec<(String, Vec<u8>)> = Vec::new();
        let mut k: usize = 0;
        proof {
            assert(prev.subrange(0, 0) =~= Seq::<(Seq<char>, Seq<u8>)>::empty());
            assert(entry_views(out@) =~= without_paths(prev.subrange(0, 0), from@, to@));
        }
        while k < n
            invariant
                n == self.files@.len(),
                prev == entry_views(self.files@),
                0 <= k <= n,
                entry_views(out@) =~= without_paths(prev.subrange(0, k as int), from@, to@),
            decreases n - k,
        {
            let ghost pre = prev.subrange(0, k as int);
            let ghost pre2 = prev.subrange(0, k as int + 1);
            proof {
                assert(pre2.drop_last() =~= pre);
                assert(pre2.last() == prev[k as int]);
            }
            let keep_entry = !str_eq(self.files[k].0.as_str(), from) && !str_eq(
                self.files[k].0.as_str(),
                to,
            );
            if keep_entry {
                let moved = (self.files[k].0.clone(), copy_bytes(&self.files[k].1));
                let ghost mv = (moved.0@, moved.1@);
                proof {
                    assert(mv == prev[k as int]);
                    assert(entry_views(out@.push(moved)) =~= entry_views(out@).push(mv));
                }
                out.push(moved);
            }
            k = k + 1;
        }
        proof {
            assert(prev.subrange(0, n as int) =~= prev);
        }
        let entry = (String::from_str(to), data);
        let ghost ev = (entry.0@, entry.1@);
        out.push(entry);
        self.files = out;
        proof {
            let w = without_paths(prev, from@, to@);
            lemma_without_paths_props(prev, from@, to@);
            assert(entry_views(self.files@).drop_last() =~= w);
            assert(entry_views(self.files@).last() == ev);
            assert(disk_map(entry_views(self.files@)) =~= disk_map(w).insert(to@, data@));
            assert(disk_map(w).insert(to@, data@) =~= disk_map(prev).remove(from@).insert(
                to@,
                data@,
            ));
            assert forall|j: int, t: int|
                0 <= j < t < entry_views(self.files@).len() implies (#[trigger] entry_views(
                self.files@,
            )[j].0) != (#[trigger] entry_views(self.files@)[t].0) by {
                if t == entry_views(self.files@).len() - 1 {
                    assert(entry_views(self.files@)[j] == w[j]);
                    assert(w[j].0 != to@);
                } else {
                    assert(entry_views(self.files@)[j] == w[j]);
                    assert(entry_views(self.files@)[t] == w[t]);
                }
            }
        }
        Ok(())
    }
}

/// Pairwise distinct paths.
pub open spec fn unique_paths(s: Seq<(Seq<char>, Seq<u8>)>) -> bool {
    forall|j: int, k: int| 0 <= j < k < s.len() ==> (#[trigger] s[j].0) != (#[trigger] s[k].0)
}

/// The entry at a path's index is what the map holds for it, when paths are
/// unique.
proof fn lemma_disk_map_index(s: Seq<(Seq<char>, Seq<u8>)>, i: int)
    requires
        unique_paths(s),
        0 <= i < s.len(),
    ensures
        disk_map(s).contains_key(s[i].0),
        disk_map(s)[s[i].0] == s[i].1,
    decreases s.len(),
{
    if i == s.len() - 1 {
    } else {
        assert forall|j: int, k: int| 0 <= j < k < s.drop_last().len() implies (
        #[trigger] s.drop_last()[j].0) != (#[trigger] s.drop_last()[k].0) by {
            assert(s.drop_last()[j] == s[j] && s.drop_last()[k] == s[k]);
        }
        lemma_disk_map_index(s.drop_last(), i);
        assert(s.drop_last()[i] == s[i]);
        assert(s.last().0 != s[i].0);
    }
}

/// A path no entry carries is not in the map.
proof fn lemma_disk_map_absent(s: Seq<(Seq<char>, Seq<u8>)>, p: Seq<char>)
    requires
        forall|j: int| 0 <= j < s.len() ==> (#[trigger] s[j].0) != p,
    ensures
        !disk_map(s).contains_key(p),
    decreases s.len(),
{
    if s.len() > 0 {
        assert forall|j: int| 0 <= j < s.drop_last().len() implies (#[trigger] s.drop_last()[j].0)
            != p by {
            assert(s.drop_last()[j] == s[j]);
        }
        lemma_disk_map_absent(s.drop_last(), p);
    }
}

/// Replacing the entry at a path's index is insertion, when paths are unique.
proof fn lemma_disk_map_update(s: Seq<(Seq<char>, Seq<u8>)>, i: int, p: Seq<char>, d: Seq<u8>)
    requires
        unique_paths(s),
        0 <= i < s.len(),
        s[i].0 == p,
    ensures
        disk_map(s.update(i, (p, d))) =~= disk_map(s).insert(p, d),
        unique_paths(s.update(i, (p, d))),
    decreases s.len(),
{
    let s2 = s.update(i, (p, d));
    assert forall|j: int, k: int| 0 <= j < k < s2.len() implies (#[trigger] s2[j].0) != (
    #[trigger] s2[k].0) by {
        assert(s2[j].0 == s[j].0 && s2[k].0 == s[k].0);
    }
    if i == s.len() - 1 {
        assert(s2.drop_last() =~= s.drop_last());
        assert(s2.last() == (p, d));
        assert(disk_map(s2) =~= disk_map(s.drop_last()).insert(p, d));
        assert(disk_map(s) == disk_map(s.drop_last()).insert(p, s[i].1));
        assert(disk_map(s.drop_last()).insert(p, s[i].1).insert(p, d) =~= disk_map(
            s.drop_last(),
        ).insert(p, d));
    } else {
        assert forall|j: int, k: int| 0 <= j < k < s.drop_last().len() implies (
        #[trigger] s.drop_last()[j].0) != (#[trigger] s.drop_last()[k].0) by {
            assert(s.drop_last()[j] == s[j] && s.drop_last()[k] == s[k]);
        }
        lemma_disk_map_update(s.drop_last(), i, p, d);
        assert(s2.drop_last() =~= s.drop_last().update(i, (p, d)));
        assert(s2.last() == s.last());
        assert(disk_map(s2) == disk_map(s2.drop_last()).insert(s.last().0, s.last().1));
        assert(s.last().0 != p);
        assert(disk_map(s.drop_last()).insert(p, d).insert(s.last().0, s.last().1) =~= disk_map(
            s.drop_last(),
        ).insert(s.last().0, s.last().1).insert(p, d));
    }
}

/// What dropping two paths does: the denoted map loses exactly those keys,
/// every kept entry is one of the original entries, no kept entry carries a
/// dropped path, and unique paths stay unique.
proof fn lemma_without_paths_props(s: Seq<(Seq<char>, Seq<u8>)>, p: Seq<char>, q: Seq<char>)
    requires
        unique_paths(s),
    ensures
        disk_map(without_paths(s, p, q)) =~= disk_map(s).remove(p).remove(q),
        forall|j: int|
            0 <= j < without_paths(s, p, q).len() ==> (#[trigger] without_paths(s, p, q)[j].0) != p
                && without_paths(s, p, q)[j].0 != q,
        unique_paths(without_paths(s, p, q)),
        forall|j: int|
            0 <= j < without_paths(s, p, q).len() ==> exists|t: int|
                0 <= t < s.len() && (#[trigger] without_paths(s, p, q)[j]) == s[t],
    decreases s.len(),
{
    let w = without_paths(s, p, q);
    if s.len() == 0 {
        assert(disk_map(w) =~= disk_map(s).remove(p).remove(q));
    } else {
        assert forall|j: int, k: int| 0 <= j < k < s.drop_last().len() implies (
        #[trigger] s.drop_last()[j].0) != (#[trigger] s.drop_last()[k].0) by {
            assert(s.drop_last()[j] == s[j] && s.drop_last()[k] == s[k]);
        }
        lemma_without_paths_props(s.drop_last(), p, q);
        let wr = without_paths(s.drop_last(), p, q);
        assert forall|j: int|
            0 <= j < w.len() implies exists|t: int| 0 <= t < s.len() && (#[trigger] w[j])
            == s[t] by {
            if j < wr.len() {
                let t = choose|t: int| 0 <= t < s.drop_last().len() && wr[j] == s.drop_last()[t];
                assert(w[j] == s[t]);
            } else {
                assert(w[j] == s[s.len() - 1]);
            }
        }
        if s.last().0 == p || s.last().0 == q {
            assert(w == wr);
            assert(disk_map(s).remove(p).remove(q) =~= disk_map(s.drop_last()).insert(
                s.last().0,
                s.last().1,
            ).remove(p).remove(q));
            assert(disk_map(s.drop_last()).insert(s.last().0, s.last().1).remove(p).remove(q)
                =~= disk_map(s.drop_last()).remove(p).remove(q));
        } else {
            assert(w == wr.push(s.last()));
            assert(disk_map(w) == disk_map(w.drop_last()).insert(w.last().0, w.last().1));
            assert(w.drop_last() =~= wr);
            assert(disk_map(w) =~= disk_map(wr).insert(s.last().0, s.last().1));
            assert(disk_map(s).remove(p).remove(q) =~= disk_map(s.drop_last()).remove(p).remove(
                q,
            ).insert(s.last().0, s.last().1));
            assert forall|j: int, k: int| 0 <= j < k < w.len() implies (#[trigger] w[j].0) != (
            #[trigger] w[k].0) by {
                if k == w.len() - 1 {
                    assert(w[j] == wr[j]);
                    let t = choose|t: int|
                        0 <= t < s.drop_last().len() && wr[j] == s.drop_last()[t];
                    assert(w[j].0 == s[t].0);
                    assert(s[t].0 != s.last().0);
                } else {
                    assert(w[j] == wr[j] && w[k] == wr[k]);
                }
            }
        }
    }
}

} // verus!
