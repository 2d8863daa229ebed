//! The set of favourite skins (by codename), and the order in which it is
//! saved.
use vstd::prelude::*;
use crate::text::{views, str_equal, chars_of, owned, seq_lt};
use crate::order::{SortKey, key_view, key_views, pos_before, sort_positions};

verus! {

broadcast use vstd::seq_lib::group_seq_properties;

/// The favourite codenames; each is held once.
pub struct Favorites {
    favorites: Vec<String>,
}

impl View for Favorites {
    type V = Set<Seq<char>>;

    closed spec fn view(&self) -> Set<Seq<char>> {
        views(self.favorites@).to_set()
    }
}

/// `v` lists strings in strictly ascending order.
pub open spec fn strictly_ascending(v: Seq<Seq<char>>) -> bool {
    forall|a: int, b: int| 0 <= a < b < v.len() ==> seq_lt(v[a], v[b])
}

impl Favorites {
    #[verifier::type_invariant]
    spec fn each_once(&self) -> bool {
        views(self.favorites@).no_duplicates()
    }

    /// No favourites.
    pub fn new() -> (r: Favorites)
        ensures
            r@ == Set::<Seq<char>>::empty(),
    {
        let r = Favorites { favorites: Vec::new() };
        assert(views(r.favorites@) =~= Seq::<Seq<char>>::empty());
        assert(r@ =~= Set::<Seq<char>>::empty());
        r
    }

    /// The favourites named in a saved list (repeats count once).
    pub fn from_list(list: Vec<String>) -> (r: Favorites)
        ensures
            r@ == views(list@).to_set(),
    {
        let mut r = Favorites::new();
        let mut i: usize = 0;
        while i < list.len()
            invariant
                i <= list.len(),
                r@ == views(list@.take(i as int)).to_set(),
            decreases list.len() - i,
        {
            r.insert(list[i].clone());
            proof {
                assert(list@.take(i + 1) =~= list@.take(i as int).push(list@[i as int]));
                assert(views(list@.take(i + 1)) =~= views(list@.take(i as int)).push(list@[i as int]@));
                views(list@.take(i as int)).lemma_push_to_set_commute(list@[i as int]@);
            }
            i += 1;
        }
        assert(list@.take(list.len() as int) =~= list@);
        r
    }

    fn find(&self, code: &str) -> (r: Option<usize>)
        ensures
            r is None ==> !views(self.favorites@).contains(code@),
            r matches Some(i) ==> i < self.favorites@.len() && self.favorites@[i as int]@ == code@,
    {
        let mut i: usize = 0;
        while i < self.favorites.len()
            invariant
                i <= self.favorites.len(),
                forall|j: int| 0 <= j < i ==> self.favorites@[j]@ != code@,
            decreases self.favorites.len() - i,
        {
            if str_equal(self.favorites[i].as_str(), code) {
                return Some(i);
            }
            i += 1;
        }
        proof {
            if views(self.favorites@).contains(code@) {
                let j = choose|j: int| 0 <= j < views(self.favorites@).len() && views(self.favorites@)[j] == code@;
                assert(self.favorites@[j]@ == code@);
            }
        }
        None
    }

    /// Whether `code` is a favourite.
    pub fn contains(&self, code: &str) -> (r: bool)
        ensures
            r == self@.contains(code@),
    {
        match self.find(code) {
            Some(i) => {
                assert(views(self.favorites@)[i as int] == code@);
                true
            },
            None => false,
        }
    }

    /// Marks `code` as a favourite.
    pub fn insert(&mut self, code: String)
        ensures
            final(self)@ == old(self)@.insert(code@),
    {
        proof {
            use_type_invariant(&*self);
        }
        match self.find(code.as_str()) {
            Some(i) => {
                assert(views(self.favorites@)[i as int] == code@);
                assert(self@.insert(code@) =~= self@);
            },
            None => {
                let ghost old_v = views(self.favorites@);
                let ghost cv = code@;
                let mut favs: Vec<String> = Vec::new();
                std::mem::swap(&mut favs, &mut self.favorites);
                favs.push(code);
                proof {
                    assert(views(favs@) =~= old_v.push(cv));
                    old_v.lemma_push_to_set_commute(cv);
                    assert forall|a: int, b: int| 0 <= a < b < views(favs@).len() implies views(
                        favs@,
                    )[a] != views(favs@)[b] by {
                        if b == old_v.len() {
                            assert(old_v.contains(old_v[a]));
                        }
                    }
                }
                self.favorites = favs;
            },
        }
    }

    /// Unmarks `code`.
    pub fn remove(&mut self, code: &str)
        ensures
            final(self)@ == old(self)@.remove(code@),
    {
        proof {
            use_type_invariant(&*self);
        }
        match self.find(code) {
            Some(i) => {
                let ghost old_v = views(self.favorites@);
                let mut favs: Vec<String> = Vec::new();
                std::mem::swap(&mut favs, &mut self.favorites);
                favs.remove(i);
                proof {
                    let nv = views(favs@);
                    assert(nv =~= old_v.remove(i as int));
                    assert(old_v[i as int] == code@);
                    assert forall|x: Seq<char>| #[trigger] nv.to_set().contains(x) <==> old_v.to_set().remove(
                        code@,
                    ).contains(x) by {
                        if nv.contains(x) {
                            let k = choose|k: int| 0 <= k < nv.len() && nv[k] == x;
                            if k < i {
                                assert(old_v[k] == x);
                                assert(old_v[k] != old_v[i as int]);
                            } else {
                                assert(old_v[k + 1] == x);
                                assert(old_v[k + 1] != old_v[i as int]);
                            }
                            assert(old_v.contains(x));
                        }
                        if old_v.contains(x) && x != code@ {
                            let k = choose|k: int| 0 <= k < old_v.len() && old_v[k] == x;
                            assert(k != i);
                            if k < i {
                                assert(nv[k] == x);
                            } else {
                                assert(nv[k - 1] == x);
                            }
                        }
                    }
                    assert(nv.to_set() =~= old_v.to_set().remove(code@));
                    assert forall|a: int, b: int| 0 <= a < b < nv.len() implies nv[a] != nv[b] by {
                        if b < i {
                        } else if a < i {
                            assert(nv[b] == old_v[b + 1]);
                        } else {
                            assert(nv[a] == old_v[a + 1]);
                            assert(nv[b] == old_v[b + 1]);
                        }
                    }
                }
                self.favorites = favs;
            },
            None => {
                assert(self@.remove(code@) =~= self@);
            },
        }
    }

    /// The number of favourites.
    pub fn len(&self) -> (r: usize)
        ensures
            r == self@.len(),
    {
        proof {
            use_type_invariant(self);
            views(self.favorites@).unique_seq_to_set();
        }
        self.favorites.len()
    }

    /// The favourites in ascending order, each once (the order they are saved in).
    pub fn sorted(&self) -> (r: Vec<String>)
        ensures
            views(r@).to_set() == self@,
            strictly_ascending(views(r@)),
    {
        proof {
            use_type_invariant(self);
        }
        let n = self.favorites.len();
        let mut keys: Vec<SortKey> = Vec::new();
        let mut i: usize = 0;
        while i < n
            invariant
                n == self.favorites.len(),
                i <= n,
                keys@.len() == i,
                forall|j: int| 0 <= j < i ==> key_view(#[trigger] keys@[j]) == (
                    self.favorites@[j]@,
                    Seq::<char>::empty(),
                ),
            decreases n - i,
        {
            keys.push(SortKey { major: chars_of(self.favorites[i].as_str()), minor: Vec::new() });
            proof {
                assert(keys@[i as int].minor@ =~= Seq::<char>::empty());
            }
            i += 1;
        }
        let perm = sort_positions(&keys);
        let ghost kv = key_views(keys@);
        let mut out: Vec<String> = Vec::new();
        let mut k: usize = 0;
        while k < n
            invariant
                n == self.favorites.len(),
                perm@.len() == n,
                forall|j: int| 0 <= j < perm@.len() ==> perm@[j] < n,
                k <= n,
                out@.len() == k,
                forall|j: int| 0 <= j < k ==> (#[trigger] out@[j])@ == self.favorites@[perm@[j] as int]@,
            decreases n - k,
        {
            out.push(owned(self.favorites[perm[k]].as_str()));
            k += 1;
        }
        proof {
            let fv = views(self.favorites@);
            let ov = views(out@);
            assert forall|p: int| 0 <= p < n implies kv[p] == (fv[p], Seq::<char>::empty()) by {
                assert(kv[p] == key_view(keys@[p]));
            }
            assert forall|a: int, b: int| 0 <= a < b < ov.len() implies seq_lt(ov[a], ov[b]) by {
                let pa = perm@[a] as int;
                let pb = perm@[b] as int;
                assert(perm@[a] != perm@[b]);
                assert(fv[pa] != fv[pb]);
                assert(ov[a] == fv[pa]);
                assert(ov[b] == fv[pb]);
                assert(pos_before(kv, pa, pb));
                assert(kv[pa] == (fv[pa], Seq::<char>::empty()));
                assert(kv[pb] == (fv[pb], Seq::<char>::empty()));
            }
            assert forall|x: Seq<char>| #[trigger] ov.to_set().contains(x) <==> fv.to_set().contains(x) by {
                if ov.contains(x) {
                    let c = choose|c: int| 0 <= c < ov.len() && ov[c] == x;
                    assert(fv[perm@[c] as int] == x);
                }
                if fv.contains(x) {
                    let p = choose|p: int| 0 <= p < fv.len() && fv[p] == x;
                    assert(perm@.contains(p as usize));
                    let c = choose|c: int| 0 <= c < perm@.len() && perm@[c] == p as usize;
                    assert(ov[c] == x);
                }
            }
            assert(ov.to_set() =~= fv.to_set());
        }
        out
    }
}

} // verus!
