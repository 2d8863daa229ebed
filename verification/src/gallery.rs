//! The gallery of one fleet: which skins are shown under the current filters
//! and search, in which order, how the keyboard cursor moves over the grid,
//! and which skin a rotation picks.
use vstd::prelude::*;
use crate::model::{Data, Skin, fleet_listing, in_fleet};
use crate::favorites::Favorites;
use crate::order::{
    SortKey, key_view, key_views, sort_positions, sorts_positions, pair_lt, pos_before,
    lemma_pair_lt_facts,
};
use crate::text::{
    chars_of, chars_contain, to_lower, lowercase, occurs_at, occurs_in, strip_prefix, has_prefix,
};

verus! {

broadcast use vstd::seq_lib::group_seq_properties;

/// The order of the gallery.
#[derive(Clone, Copy, PartialEq, Eq, Structural, Debug)]
pub enum Sort {
    /// As the fleet lists its skins (by ship name).
    Ship,
    /// By skin name (the codename where a skin has none).
    SkinName,
}

impl Sort {
    /// The label of the order in the sort menu.
    pub fn label(self) -> (r: &'static str)
        ensures
            r@ == (match self {
                Sort::Ship => "Ship A–Z"@,
                Sort::SkinName => "Skin A–Z"@,
            }),
    {
        match self {
            Sort::Ship => "Ship A–Z",
            Sort::SkinName => "Skin A–Z",
        }
    }
}

/// The skin's name, or the empty string when it has none.
pub open spec fn name_or_empty(s: Skin) -> Seq<char> {
    match s.skin_name {
        Some(n) => n@,
        None => seq![],
    }
}

/// The skin's name, or its codename when it has none.
pub open spec fn display_name(s: Skin) -> Seq<char> {
    match s.skin_name {
        Some(n) => n@,
        None => s.codename@,
    }
}

/// The (lower-cased) query matches a skin: it is empty, or it occurs in the
/// lower-cased ship name, in the lower-cased skin name, or in the codename.
pub open spec fn matches_query(s: Skin, q: Seq<char>) -> bool {
    q.len() == 0 || occurs_in(lowercase(s.ship@), q) || occurs_in(lowercase(name_or_empty(s)), q)
        || occurs_in(s.codename@, q)
}

/// The skin passes the gallery's filters.
pub open spec fn shown(
    s: Skin,
    favs: Set<Seq<char>>,
    q: Seq<char>,
    fav_only: bool,
    oath_only: bool,
) -> bool {
    &&& !fav_only || favs.contains(s.codename@)
    &&& !oath_only || s.is_oath
    &&& matches_query(s, q)
}

/// The filter on skin positions.
pub open spec fn shown_filter(
    skins: Seq<Skin>,
    favs: Set<Seq<char>>,
    q: Seq<char>,
    fav_only: bool,
    oath_only: bool,
) -> spec_fn(usize) -> bool {
    |i: usize| shown(skins[i as int], favs, q, fav_only, oath_only)
}

/// The key of the skin-name order: lower-cased display name, then codename.
pub open spec fn name_key(s: Skin) -> (Seq<char>, Seq<char>) {
    (lowercase(display_name(s)), s.codename@)
}

/// The skin-name keys of a list of skin positions.
pub open spec fn name_keys(skins: Seq<Skin>, f: Seq<usize>) -> Seq<(Seq<char>, Seq<char>)> {
    f.map_values(|i: usize| name_key(skins[i as int]))
}

/// The skins a fleet's gallery shows: the fleet's skins that pass the
/// favourites and oath filters and match the search (compared in lower case),
/// in fleet order, or, for the skin-name order, sorted stably by
/// lower-cased display name and then codename.
pub fn visible_skins(
    data: &Data,
    key: &str,
    query: &str,
    favorites: &Favorites,
    fav_only: bool,
    oath_only: bool,
    sort: Sort,
) -> (r: Vec<usize>)
    ensures
        ({
            let f = data.fleet(key@).filter(
                shown_filter(data.skins_view(), favorites@, lowercase(query@), fav_only, oath_only),
            );
            &&& sort == Sort::Ship ==> r@ == f
            &&& sort == Sort::SkinName ==> exists|perm: Seq<usize>|
                #[trigger] sorts_positions(name_keys(data.skins_view(), f), perm) && r@
                    == perm.map_values(|p: usize| f[p as int])
        }),
        forall|i: usize| #[trigger]
            r@.contains(i) <==> ({
                let s = data.skins_view()[i as int];
                let q = lowercase(query@);
                &&& data.fleet(key@).contains(i)
                &&& fav_only ==> favorites@.contains(s.codename@)
                &&& oath_only ==> s.is_oath
                &&& q.len() == 0 || (exists|j: int|
                        0 <= j && j + q.len() <= lowercase(s.ship@).len() && #[trigger] lowercase(
                            s.ship@,
                        ).subrange(j, j + q.len()) == q) || (s.skin_name is Some && exists|j: int|
                        0 <= j && j + q.len() <= lowercase(s.skin_name->0@).len() && #[trigger] lowercase(
                            s.skin_name->0@,
                        ).subrange(j, j + q.len()) == q) || (s.skin_name is None && exists|j: int|
                        0 <= j && j + q.len() <= lowercase(Seq::<char>::empty()).len() && #[trigger] lowercase(
                            Seq::<char>::empty(),
                        ).subrange(j, j + q.len()) == q) || (exists|j: int|
                        0 <= j && j + q.len() <= s.codename@.len() && #[trigger] s.codename@.subrange(
                            j,
                            j + q.len(),
                        ) == q)
            }),
        sort == Sort::SkinName ==> forall|a: int, b: int|
            #![trigger r@[a], r@[b]]
            0 <= a < b < r@.len() ==> !pair_lt(
                ({
                    let s = data.skins_view()[r@[b] as int];
                    (
                        lowercase(
                            if s.skin_name is Some {
                                s.skin_name->0@
                            } else {
                                s.codename@
                            },
                        ),
                        s.codename@,
                    )
                }),
                ({
                    let s = data.skins_view()[r@[a] as int];
                    (
                        lowercase(
                            if s.skin_name is Some {
                                s.skin_name->0@
                            } else {
                                s.codename@
                            },
                        ),
                        s.codename@,
                    )
                }),
            ),
{
    let skins = data.skins();
    let lowered = to_lower(query);
    let q = chars_of(lowered.as_str());
    let ghost pred = shown_filter(data.skins_view(), favorites@, lowercase(query@), fav_only, oath_only);
    let empty: Vec<usize> = Vec::new();
    let opt = data.members(key);
    let members: &Vec<usize> = match opt {
        Some(m) => m,
        None => &empty,
    };
    proof {
        if opt is None {
            assert(members@ =~= data.fleet(key@));
        }
    }
    let ghost m = members@;
    assert(m == data.fleet(key@));
    assert(fleet_listing(data.skins_view(), key@, m));
    let mut out: Vec<usize> = Vec::new();
    let mut k: usize = 0;
    assert(m.take(0) =~= Seq::<usize>::empty());
    while k < members.len()
        invariant
            m == members@,
            fleet_listing(skins@, key@, m),
            skins@ == data.skins_view(),
            q@ == lowercase(query@),
            pred == shown_filter(data.skins_view(), favorites@, lowercase(query@), fav_only, oath_only),
            k <= members.len(),
            out@ == m.take(k as int).filter(pred),
            forall|j: int| 0 <= j < out@.len() ==> out@[j] < skins@.len(),
        decreases members.len() - k,
    {
        let i = members[k];
        proof {
            assert(m.take(k + 1) =~= m.take(k as int).push(i));
            m.take(k as int).lemma_filter_push(i, pred);
        }
        let s = &skins[i];
        let mut keep = true;
        if fav_only && !favorites.contains(s.codename.as_str()) {
            keep = false;
        }
        if oath_only && !s.is_oath {
            keep = false;
        }
        if keep && q.len() > 0 {
            let ship = chars_of(to_lower(s.ship.as_str()).as_str());
            let name = match &s.skin_name {
                Some(n) => chars_of(to_lower(n.as_str()).as_str()),
                None => {
                    let e = String::new();
                    chars_of(to_lower(e.as_str()).as_str())
                },
            };
            let code = chars_of(s.codename.as_str());
            if !chars_contain(&ship, &q) && !chars_contain(&name, &q) && !chars_contain(&code, &q) {
                keep = false;
            }
        }
        assert(keep == pred(i));
        if keep {
            out.push(i);
        }
        k += 1;
    }
    assert(m.take(members.len() as int) =~= m);
    proof {
        assert forall|i: usize| #[trigger]
            out@.contains(i) <==> ({
                let s = data.skins_view()[i as int];
                let q = lowercase(query@);
                &&& data.fleet(key@).contains(i)
                &&& fav_only ==> favorites@.contains(s.codename@)
                &&& oath_only ==> s.is_oath
                &&& q.len() == 0 || (exists|j: int|
                        0 <= j && j + q.len() <= lowercase(s.ship@).len() && #[trigger] lowercase(
                            s.ship@,
                        ).subrange(j, j + q.len()) == q) || (s.skin_name is Some && exists|j: int|
                        0 <= j && j + q.len() <= lowercase(s.skin_name->0@).len() && #[trigger] lowercase(
                            s.skin_name->0@,
                        ).subrange(j, j + q.len()) == q) || (s.skin_name is None && exists|j: int|
                        0 <= j && j + q.len() <= lowercase(Seq::<char>::empty()).len() && #[trigger] lowercase(
                            Seq::<char>::empty(),
                        ).subrange(j, j + q.len()) == q) || (exists|j: int|
                        0 <= j && j + q.len() <= s.codename@.len() && #[trigger] s.codename@.subrange(
                            j,
                            j + q.len(),
                        ) == q)
            }) by {
            lemma_gallery_membership(
                data.skins_view(),
                m,
                favorites@,
                lowercase(query@),
                fav_only,
                oath_only,
                i,
            );
        }
    }
    if sort == Sort::Ship {
        return out;
    }
    // skin-name order
    let ghost f = out@;
    let n = out.len();
    let mut keys: Vec<SortKey> = Vec::new();
    let mut p: usize = 0;
    while p < n
        invariant
            n == out.len(),
            f == out@,
            skins@ == data.skins_view(),
            forall|j: int| 0 <= j < f.len() ==> f[j] < skins@.len(),
            p <= n,
            keys@.len() == p,
            forall|j: int| 0 <= j < p ==> key_view(#[trigger] keys@[j]) == name_key(skins@[f[j] as int]),
        decreases n - p,
    {
        let s = &skins[out[p]];
        let name = match &s.skin_name {
            Some(nm) => to_lower(nm.as_str()),
            None => to_lower(s.codename.as_str()),
        };
        keys.push(SortKey { major: chars_of(name.as_str()), minor: chars_of(s.codename.as_str()) });
        p += 1;
    }
    let perm = sort_positions(&keys);
    let mut sorted: Vec<usize> = Vec::new();
    let mut k2: usize = 0;
    while k2 < n
        invariant
            n == out.len(),
            f == out@,
            perm@.len() == n,
            forall|j: int| 0 <= j < perm@.len() ==> perm@[j] < n,
            k2 <= n,
            sorted@.len() == k2,
            forall|j: int| 0 <= j < k2 ==> #[trigger] sorted@[j] == f[perm@[j] as int],
        decreases n - k2,
    {
        sorted.push(out[perm[k2]]);
        k2 += 1;
    }
    proof {
        assert(key_views(keys@) =~= name_keys(data.skins_view(), f)) by {
            assert forall|j: int| 0 <= j < f.len() implies key_views(keys@)[j] == name_keys(data.skins_view(), f)[j] by {
                assert(key_view(keys@[j]) == name_key(skins@[f[j] as int]));
            }
        }
        assert(sorted@ =~= perm@.map_values(|p: usize| f[p as int]));
        assert(sorts_positions(name_keys(data.skins_view(), f), perm@));
        assert forall|i: usize| #[trigger] sorted@.contains(i) <==> f.contains(i) by {
            if sorted@.contains(i) {
                let k = choose|k: int| 0 <= k < sorted@.len() && sorted@[k] == i;
                assert(f[perm@[k] as int] == i);
            }
            if f.contains(i) {
                let p = choose|p: int| 0 <= p < f.len() && f[p] == i;
                assert(perm@.contains(p as usize));
                let k = choose|k: int| 0 <= k < perm@.len() && perm@[k] == p as usize;
                assert(sorted@[k] == i);
            }
        }
        let keys_v = name_keys(data.skins_view(), f);
        assert forall|a: int, b: int|
            #![trigger perm@[a], perm@[b]]
            0 <= a < b < sorted@.len() implies !pair_lt(
            keys_v[perm@[b] as int],
            keys_v[perm@[a] as int],
        ) by {
            assert(pos_before(keys_v, perm@[a] as int, perm@[b] as int));
            lemma_pair_lt_facts(keys_v[perm@[a] as int], keys_v[perm@[b] as int]);
        }
    }
    sorted
}

/// The cursor kept inside a list of `n` cards (the last card when it was
/// past the end; 0 for an empty list).
pub fn clamp_cursor(cursor: usize, n: usize) -> (r: usize)
    ensures
        n == 0 ==> r == 0,
        n > 0 ==> r < n,
        r == (if cursor >= n {
            if n > 0 {
                n - 1
            } else {
                0
            }
        } else {
            cursor as int
        }),
{
    if cursor >= n {
        if n > 0 {
            n - 1
        } else {
            0
        }
    } else {
        cursor
    }
}

/// `a - b`, or 0 when `b` is larger.
pub open spec fn sat_sub(a: int, b: int) -> int {
    if a >= b {
        a - b
    } else {
        0
    }
}

/// The cursor after the arrow keys, on a grid of `n` cards in rows of `cols`
/// (at least 1): right, then left, then down, then up, each kept on the grid.
pub open spec fn moved_cursor(
    cursor: int,
    n: int,
    cols: int,
    left: bool,
    right: bool,
    up: bool,
    down: bool,
) -> int {
    let w = if cols > 1 {
        cols
    } else {
        1
    };
    let c0 = if cursor < n - 1 {
        cursor
    } else {
        n - 1
    };
    let c1 = if right {
        if c0 + 1 < n - 1 {
            c0 + 1
        } else {
            n - 1
        }
    } else {
        c0
    };
    let c2 = if left {
        sat_sub(c1, 1)
    } else {
        c1
    };
    let c3 = if down {
        if c2 + w < n - 1 {
            c2 + w
        } else {
            n - 1
        }
    } else {
        c2
    };
    if up {
        sat_sub(c3, w)
    } else {
        c3
    }
}

/// Moves the keyboard cursor over a non-empty grid: the new position and
/// whether an arrow key was pressed.
pub fn navigate(
    cursor: usize,
    n: usize,
    cols: usize,
    left: bool,
    right: bool,
    up: bool,
    down: bool,
) -> (r: (usize, bool))
    requires
        n > 0,
        n - 1 + (if cols > 1 {
            cols as int
        } else {
            1
        }) <= usize::MAX,
    ensures
        r.0 == moved_cursor(cursor as int, n as int, cols as int, left, right, up, down),
        r.0 < n,
        r.1 == (left || right || up || down),
        ({
            let c0 = if cursor < n - 1 {
                cursor as int
            } else {
                n - 1
            };
            let w = if cols > 1 {
                cols as int
            } else {
                1
            };
            &&& (left && !right && !up && !down) ==> r.0 == (if c0 > 0 {
                c0 - 1
            } else {
                0
            })
            &&& (right && !left && !up && !down) ==> r.0 == (if c0 + 1 < n {
                c0 + 1
            } else {
                n - 1
            })
            &&& (down && !left && !right && !up) ==> r.0 == (if c0 + w < n {
                c0 + w
            } else {
                n - 1
            })
            &&& (up && !left && !right && !down) ==> r.0 == (if c0 >= w {
                c0 - w
            } else {
                0
            })
            &&& !(left || right || up || down) ==> r.0 == c0
        }),
{
    let w = if cols > 1 {
        cols
    } else {
        1
    };
    let mut c = if cursor < n - 1 {
        cursor
    } else {
        n - 1
    };
    let mut moved = false;
    if right {
        c = if c + 1 < n - 1 {
            c + 1
        } else {
            n - 1
        };
        moved = true;
    }
    if left {
        c = if c >= 1 {
            c - 1
        } else {
            0
        };
        moved = true;
    }
    if down {
        c = if c + w < n - 1 {
            c + w
        } else {
            n - 1
        };
        moved = true;
    }
    if up {
        c = if c >= w {
            c - w
        } else {
            0
        };
        moved = true;
    }
    (c, moved)
}

/// One arrow key moves the cursor one step on the grid: left and right by
/// one card, up and down by one row of `cols` (at least 1), stopping at the
/// first and last card; no key leaves it where it is.
pub proof fn lemma_single_arrow_steps(cursor: int, n: int, cols: int)
    requires
        0 <= cursor < n,
    ensures
        moved_cursor(cursor, n, cols, true, false, false, false) == (if cursor > 0 {
            cursor - 1
        } else {
            0
        }),
        moved_cursor(cursor, n, cols, false, true, false, false) == (if cursor + 1 < n {
            cursor + 1
        } else {
            n - 1
        }),
        cols >= 1 ==> moved_cursor(cursor, n, cols, false, false, false, true) == (if cursor
            + cols < n {
            cursor + cols
        } else {
            n - 1
        }),
        cols >= 1 ==> moved_cursor(cursor, n, cols, false, false, true, false) == (if cursor
            >= cols {
            cursor - cols
        } else {
            0
        }),
        moved_cursor(cursor, n, cols, false, false, false, false) == cursor,
{
}

/// The codenames a rotation picks from: a fleet's skins (in display order)
/// for a `faction:<key>` scope, every skin otherwise.
pub open spec fn rotation_pool(data: Data, scope: Seq<char>) -> Seq<Seq<char>> {
    if has_prefix(scope, "faction:"@) {
        data.fleet(scope.skip("faction:"@.len() as int)).map_values(
            |i: usize| data.skins_view()[i as int].codename@,
        )
    } else {
        data.skins_view().map_values(|s: Skin| s.codename@)
    }
}

/// Picks the skin for a rotation from the pool of `scope`, using `nanos`
/// (the sub-second part of the clock) as the random choice.
pub fn pick_random(data: &Data, scope: &str, nanos: u32) -> (r: Option<String>)
    ensures
        ({
            let pool = rotation_pool(*data, scope@);
            &&& r is None <==> pool.len() == 0
            &&& r matches Some(c) ==> c@ == pool[(nanos as int) % (pool.len() as int)]
        }),
{
    let skins = data.skins();
    let mut pool: Vec<usize> = Vec::new();
    match strip_prefix(scope, "faction:") {
        Some(f) => {
            let opt = data.members(f.as_str());
            match opt {
                Some(m) => {
                    let mut k: usize = 0;
                    while k < m.len()
                        invariant
                            k <= m.len(),
                            pool@ == m@.take(k as int),
                        decreases m.len() - k,
                    {
                        pool.push(m[k]);
                        k += 1;
                        assert(pool@ =~= m@.take(k as int));
                    }
                    assert(m@.take(m.len() as int) =~= m@);
                },
                None => {},
            }
            proof {
                let pv = rotation_pool(*data, scope@);
                assert(pool@ =~= data.fleet(f@));
                assert(fleet_listing(data.skins_view(), f@, pool@));
            }
        },
        None => {
            let mut k: usize = 0;
            while k < skins.len()
                invariant
                    k <= skins.len(),
                    pool@.len() == k,
                    forall|j: int| 0 <= j < k ==> #[trigger] pool@[j] == j,
                decreases skins.len() - k,
            {
                pool.push(k);
                k += 1;
            }
        },
    }
    let ghost pv = rotation_pool(*data, scope@);
    proof {
        assert(forall|j: int| 0 <= j < pool@.len() ==> pool@[j] < skins@.len());
        assert(pv.len() == pool@.len());
        assert(forall|j: int| 0 <= j < pool@.len() ==> pv[j] == skins@[pool@[j] as int].codename@);
    }
    if pool.len() == 0 {
        return None;
    }
    let at = (nanos as usize) % pool.len();
    Some(skins[pool[at]].codename.clone())
}

/// The search: a lower-cased query `q` matches a skin exactly when it is
/// empty or occurs, at some position, in the lower-cased ship name, in the
/// lower-cased skin name (the lower-cased empty string for a skin without
/// one) or in the codename.
pub proof fn lemma_query_is_substring_search(s: Skin, q: Seq<char>)
    ensures
        matches_query(s, q) <==> (q.len() == 0 || (exists|j: int|
                0 <= j && j + q.len() <= lowercase(s.ship@).len() && #[trigger] lowercase(
                    s.ship@,
                ).subrange(j, j + q.len()) == q) || (s.skin_name is Some && exists|j: int|
                0 <= j && j + q.len() <= lowercase(s.skin_name->0@).len() && #[trigger] lowercase(
                    s.skin_name->0@,
                ).subrange(j, j + q.len()) == q) || (s.skin_name is None && exists|j: int|
                0 <= j && j + q.len() <= lowercase(Seq::<char>::empty()).len() && #[trigger] lowercase(
                    Seq::<char>::empty(),
                ).subrange(j, j + q.len()) == q) || (exists|j: int|
                0 <= j && j + q.len() <= s.codename@.len() && #[trigger] s.codename@.subrange(
                    j,
                    j + q.len(),
                ) == q)),
{
    lemma_occurs_in_is_substring(lowercase(s.ship@), q);
    match s.skin_name {
        Some(x) => lemma_occurs_in_is_substring(lowercase(x@), q),
        None => lemma_occurs_in_is_substring(lowercase(Seq::<char>::empty()), q),
    }
    lemma_occurs_in_is_substring(s.codename@, q);
}

/// `occurs_in` holds exactly when some slice of `hay` equals `needle`.
proof fn lemma_occurs_in_is_substring(hay: Seq<char>, needle: Seq<char>)
    ensures
        occurs_in(hay, needle) <==> (exists|j: int|
            0 <= j && j + needle.len() <= hay.len() && #[trigger] hay.subrange(j, j + needle.len())
                == needle),
{
    if occurs_in(hay, needle) {
        let j = choose|j: int| occurs_at(hay, needle, j);
        assert(hay.subrange(j, j + needle.len()) == needle);
    }
    if exists|j: int|
        0 <= j && j + needle.len() <= hay.len() && #[trigger] hay.subrange(j, j + needle.len())
            == needle {
        let j = choose|j: int|
            0 <= j && j + needle.len() <= hay.len() && #[trigger] hay.subrange(j, j + needle.len())
                == needle;
        assert(occurs_at(hay, needle, j));
    }
}

/// A gallery shows a skin exactly when it is one of the listed fleet
/// skins, is a favourite when only favourites are shown, is an oath skin
/// when only those are shown, and the lower-cased query `q` is empty or
/// occurs somewhere in its lower-cased ship name, lower-cased skin name or
/// codename.
pub proof fn lemma_gallery_membership(
    skins: Seq<Skin>,
    m: Seq<usize>,
    favs: Set<Seq<char>>,
    q: Seq<char>,
    fav_only: bool,
    oath_only: bool,
    i: usize,
)
    ensures
        ({
            let s = skins[i as int];
            m.filter(shown_filter(skins, favs, q, fav_only, oath_only)).contains(i) <==> {
                &&& m.contains(i)
                &&& fav_only ==> favs.contains(s.codename@)
                &&& oath_only ==> s.is_oath
                &&& q.len() == 0 || (exists|j: int|
                0 <= j && j + q.len() <= lowercase(s.ship@).len() && #[trigger] lowercase(
                    s.ship@,
                ).subrange(j, j + q.len()) == q) || (s.skin_name is Some && exists|j: int|
                0 <= j && j + q.len() <= lowercase(s.skin_name->0@).len() && #[trigger] lowercase(
                    s.skin_name->0@,
                ).subrange(j, j + q.len()) == q) || (s.skin_name is None && exists|j: int|
                0 <= j && j + q.len() <= lowercase(Seq::<char>::empty()).len() && #[trigger] lowercase(
                    Seq::<char>::empty(),
                ).subrange(j, j + q.len()) == q) || (exists|j: int|
                0 <= j && j + q.len() <= s.codename@.len() && #[trigger] s.codename@.subrange(
                    j,
                    j + q.len(),
                ) == q)
            }
        }),
{
    let pred = shown_filter(skins, favs, q, fav_only, oath_only);
    let f = m.filter(pred);
    lemma_query_is_substring_search(skins[i as int], q);
    if f.contains(i) {
        m.lemma_filter_contains_rev(pred, i);
        let k = choose|k: int| 0 <= k < f.len() && f[k] == i;
        m.lemma_filter_pred(pred, k);
    }
    if m.contains(i) && pred(i) {
        let k = choose|k: int| 0 <= k < m.len() && m[k] == i;
        m.lemma_filter_contains(pred, k);
    }
}
/// The skin-name order is keyed by the lower-cased skin name, or by the
/// lower-cased codename for a skin without a name, and then by the codename.
pub proof fn lemma_name_key_of_skin(s: Skin)
    ensures
        s.skin_name matches Some(x) ==> name_key(s) == (lowercase(x@), s.codename@),
        s.skin_name is None ==> name_key(s) == (lowercase(s.codename@), s.codename@),
{
}

/// In a stable sort of gallery positions `f` by skin-name key, no skin comes
/// after one whose key (lower-cased skin name, or lower-cased codename when
/// it has none, then codename) is larger.
pub proof fn lemma_skin_name_order(skins: Seq<Skin>, f: Seq<usize>, perm: Seq<usize>, a: int, b: int)
    requires
        sorts_positions(name_keys(skins, f), perm),
        0 <= a < b < perm.len(),
    ensures
        !pair_lt(
            (
            lowercase(
                if skins[f[perm[b] as int] as int].skin_name is Some {
                    skins[f[perm[b] as int] as int].skin_name->0@
                } else {
                    skins[f[perm[b] as int] as int].codename@
                },
            ),
            skins[f[perm[b] as int] as int].codename@,
        ),
            (
            lowercase(
                if skins[f[perm[a] as int] as int].skin_name is Some {
                    skins[f[perm[a] as int] as int].skin_name->0@
                } else {
                    skins[f[perm[a] as int] as int].codename@
                },
            ),
            skins[f[perm[a] as int] as int].codename@,
        ),
        ),
{
    let keys = name_keys(skins, f);
    assert(pos_before(keys, perm[a] as int, perm[b] as int));
    lemma_pair_lt_facts(keys[perm[a] as int], keys[perm[b] as int]);
}

/// Every skin a gallery shows belongs to the fleet and passes the filters.
pub proof fn lemma_shown_skins(
    skins: Seq<Skin>,
    key: Seq<char>,
    m: Seq<usize>,
    favs: Set<Seq<char>>,
    q: Seq<char>,
    fav_only: bool,
    oath_only: bool,
    i: usize,
)
    requires
        fleet_listing(skins, key, m),
        m.filter(shown_filter(skins, favs, q, fav_only, oath_only)).contains(i),
    ensures
        (i as int) < skins.len(),
        skins[i as int].faction@ == key,
        shown(skins[i as int], favs, q, fav_only, oath_only),
{
    let pred = shown_filter(skins, favs, q, fav_only, oath_only);
    let f = m.filter(pred);
    m.lemma_filter_contains_rev(pred, i);
    let k = choose|k: int| 0 <= k < f.len() && f[k] == i;
    m.lemma_filter_pred(pred, k);
    let c = choose|c: int| 0 <= c < m.len() && m[c] == i;
    assert(in_fleet(skins, key, m[c] as int));
}

} // verus!
