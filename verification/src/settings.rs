//! The choices of the rotation and power windows and their labels.
use vstd::prelude::*;
use crate::model::{Data, fleet_size};
use crate::commands::{decimal, decimal_digits};
use crate::text::{owned, str_equal, strip_prefix, has_prefix};

verus! {

/// The rotation intervals offered: saved key and label.
pub open spec fn interval_table() -> Seq<(Seq<char>, Seq<char>)> {
    seq![
        ("5m"@, "Every 5 minutes"@),
        ("15m"@, "Every 15 minutes"@),
        ("30m"@, "Every 30 minutes"@),
        ("1h"@, "Hourly"@),
        ("6h"@, "Every 6 hours"@),
        ("daily"@, "Daily"@),
        ("weekly"@, "Weekly"@),
        ("monthly"@, "Monthly"@),
    ]
}

/// The label of the first entry of `table` with key `key`, or `default`.
pub open spec fn label_in(
    table: Seq<(Seq<char>, Seq<char>)>,
    key: Seq<char>,
    default: Seq<char>,
) -> Seq<char>
    decreases table.len(),
{
    if table.len() == 0 {
        default
    } else if table[0].0 == key {
        table[0].1
    } else {
        label_in(table.drop_first(), key, default)
    }
}

/// The views of a list of string-slice pairs.
pub open spec fn pair_views(v: Seq<(&str, &str)>) -> Seq<(Seq<char>, Seq<char>)> {
    v.map_values(|p: (&str, &str)| (p.0@, p.1@))
}

/// The rotation intervals offered, in menu order.
pub fn intervals() -> (r: Vec<(&'static str, &'static str)>)
    ensures
        pair_views(r@) == interval_table(),
        r@.len() == 8,
        r@[0].0@ == "5m"@ && r@[0].1@ == "Every 5 minutes"@,
        r@[1].0@ == "15m"@ && r@[1].1@ == "Every 15 minutes"@,
        r@[2].0@ == "30m"@ && r@[2].1@ == "Every 30 minutes"@,
        r@[3].0@ == "1h"@ && r@[3].1@ == "Hourly"@,
        r@[4].0@ == "6h"@ && r@[4].1@ == "Every 6 hours"@,
        r@[5].0@ == "daily"@ && r@[5].1@ == "Daily"@,
        r@[6].0@ == "weekly"@ && r@[6].1@ == "Weekly"@,
        r@[7].0@ == "monthly"@ && r@[7].1@ == "Monthly"@,
{
    let mut r: Vec<(&'static str, &'static str)> = Vec::new();
    r.push(("5m", "Every 5 minutes"));
    r.push(("15m", "Every 15 minutes"));
    r.push(("30m", "Every 30 minutes"));
    r.push(("1h", "Hourly"));
    r.push(("6h", "Every 6 hours"));
    r.push(("daily", "Daily"));
    r.push(("weekly", "Weekly"));
    r.push(("monthly", "Monthly"));
    assert(pair_views(r@) =~= interval_table());
    r
}

/// The label of a saved interval; an unknown one reads as every 30 minutes.
pub fn interval_label(key: &str) -> (r: &'static str)
    ensures
        r@ == label_in(interval_table(), key@, "Every 30 minutes"@),
        key@ == "5m"@ ==> r@ == "Every 5 minutes"@,
        key@ == "15m"@ ==> r@ == "Every 15 minutes"@,
        key@ == "30m"@ ==> r@ == "Every 30 minutes"@,
        key@ == "1h"@ ==> r@ == "Hourly"@,
        key@ == "6h"@ ==> r@ == "Every 6 hours"@,
        key@ == "daily"@ ==> r@ == "Daily"@,
        key@ == "weekly"@ ==> r@ == "Weekly"@,
        key@ == "monthly"@ ==> r@ == "Monthly"@,
        (key@ != "5m"@ && key@ != "15m"@ && key@ != "30m"@ && key@ != "1h"@ && key@ != "6h"@
            && key@ != "daily"@ && key@ != "weekly"@ && key@ != "monthly"@) ==> r@ == "Every 30 minutes"@,
{
    let table = intervals();
    let mut i: usize = 0;
    assert(interval_table().skip(0) =~= interval_table());
    while i < table.len()
        invariant
            i <= table.len(),
            pair_views(table@) == interval_table(),
            label_in(interval_table(), key@, "Every 30 minutes"@) == label_in(
                interval_table().skip(i as int),
                key@,
                "Every 30 minutes"@,
            ),
        decreases table.len() - i,
    {
        let ghost rest = interval_table().skip(i as int);
        assert(rest[0] == (table@[i as int].0@, table@[i as int].1@));
        assert(rest.drop_first() =~= interval_table().skip(i + 1));
        if str_equal(table[i].0, key) {
            proof {
                lemma_interval_labels(key@);
            }
            return table[i].1;
        }
        i += 1;
    }
    assert(interval_table().skip(i as int) =~= Seq::<(Seq<char>, Seq<char>)>::empty());
    proof {
        lemma_interval_labels(key@);
    }
    "Every 30 minutes"
}

/// The label of each offered interval key is its menu entry's label, and
/// any other key reads as every 30 minutes.
pub proof fn lemma_interval_labels(key: Seq<char>)
    ensures
        key == "5m"@ ==> label_in(interval_table(), key, "Every 30 minutes"@) == "Every 5 minutes"@,
        key == "15m"@ ==> label_in(interval_table(), key, "Every 30 minutes"@) == "Every 15 minutes"@,
        key == "30m"@ ==> label_in(interval_table(), key, "Every 30 minutes"@) == "Every 30 minutes"@,
        key == "1h"@ ==> label_in(interval_table(), key, "Every 30 minutes"@) == "Hourly"@,
        key == "6h"@ ==> label_in(interval_table(), key, "Every 30 minutes"@) == "Every 6 hours"@,
        key == "daily"@ ==> label_in(interval_table(), key, "Every 30 minutes"@) == "Daily"@,
        key == "weekly"@ ==> label_in(interval_table(), key, "Every 30 minutes"@) == "Weekly"@,
        key == "monthly"@ ==> label_in(interval_table(), key, "Every 30 minutes"@) == "Monthly"@,
        (key != "5m"@ && key != "15m"@ && key != "30m"@ && key != "1h"@ && key != "6h"@
            && key != "daily"@ && key != "weekly"@ && key != "monthly"@) ==> label_in(
            interval_table(),
            key,
            "Every 30 minutes"@,
        ) == "Every 30 minutes"@,
{
    reveal_strlit("5m");
    reveal_strlit("15m");
    reveal_strlit("30m");
    reveal_strlit("1h");
    reveal_strlit("6h");
    reveal_strlit("daily");
    reveal_strlit("weekly");
    reveal_strlit("monthly");
    let t = interval_table();
    let d = "Every 30 minutes"@;
    assert("5m"@.len() == 2 && "5m"@[0] == '5');
    assert("15m"@.len() == 3 && "15m"@[0] == '1');
    assert("30m"@.len() == 3 && "30m"@[0] == '3');
    assert("1h"@.len() == 2 && "1h"@[0] == '1');
    assert("6h"@.len() == 2 && "6h"@[0] == '6');
    assert("daily"@.len() == 5 && "daily"@[0] == 'd');
    assert("weekly"@.len() == 6 && "weekly"@[0] == 'w');
    assert("monthly"@.len() == 7 && "monthly"@[0] == 'm');
    assert(t.subrange(0, 8) =~= t);
    assert(t.subrange(0, 8).drop_first() =~= t.subrange(1, 8));
    assert(t.subrange(0, 8)[0] == ("5m"@, "Every 5 minutes"@));
    assert(t.subrange(1, 8).drop_first() =~= t.subrange(2, 8));
    assert(t.subrange(1, 8)[0] == ("15m"@, "Every 15 minutes"@));
    assert(t.subrange(2, 8).drop_first() =~= t.subrange(3, 8));
    assert(t.subrange(2, 8)[0] == ("30m"@, "Every 30 minutes"@));
    assert(t.subrange(3, 8).drop_first() =~= t.subrange(4, 8));
    assert(t.subrange(3, 8)[0] == ("1h"@, "Hourly"@));
    assert(t.subrange(4, 8).drop_first() =~= t.subrange(5, 8));
    assert(t.subrange(4, 8)[0] == ("6h"@, "Every 6 hours"@));
    assert(t.subrange(5, 8).drop_first() =~= t.subrange(6, 8));
    assert(t.subrange(5, 8)[0] == ("daily"@, "Daily"@));
    assert(t.subrange(6, 8).drop_first() =~= t.subrange(7, 8));
    assert(t.subrange(6, 8)[0] == ("weekly"@, "Weekly"@));
    assert(t.subrange(7, 8).drop_first() =~= t.subrange(8, 8));
    assert(t.subrange(7, 8)[0] == ("monthly"@, "Monthly"@));
    if key == "5m"@ {
        assert(label_in(t, key, d) == "Every 5 minutes"@);
    } else if key == "15m"@ {
        assert(label_in(t.subrange(0, 8), key, d) == label_in(t.subrange(1, 8), key, d));
        assert(label_in(t.subrange(1, 8), key, d) == "Every 15 minutes"@);
    } else if key == "30m"@ {
        assert(label_in(t.subrange(0, 8), key, d) == label_in(t.subrange(1, 8), key, d));
        assert(label_in(t.subrange(1, 8), key, d) == label_in(t.subrange(2, 8), key, d));
        assert(label_in(t.subrange(2, 8), key, d) == "Every 30 minutes"@);
    } else if key == "1h"@ {
        assert(label_in(t.subrange(0, 8), key, d) == label_in(t.subrange(1, 8), key, d));
        assert(label_in(t.subrange(1, 8), key, d) == label_in(t.subrange(2, 8), key, d));
        assert(label_in(t.subrange(2, 8), key, d) == label_in(t.subrange(3, 8), key, d));
        assert(label_in(t.subrange(3, 8), key, d) == "Hourly"@);
    } else if key == "6h"@ {
        assert(label_in(t.subrange(0, 8), key, d) == label_in(t.subrange(1, 8), key, d));
        assert(label_in(t.subrange(1, 8), key, d) == label_in(t.subrange(2, 8), key, d));
        assert(label_in(t.subrange(2, 8), key, d) == label_in(t.subrange(3, 8), key, d));
        assert(label_in(t.subrange(3, 8), key, d) == label_in(t.subrange(4, 8), key, d));
        assert(label_in(t.subrange(4, 8), key, d) == "Every 6 hours"@);
    } else if key == "daily"@ {
        assert(label_in(t.subrange(0, 8), key, d) == label_in(t.subrange(1, 8), key, d));
        assert(label_in(t.subrange(1, 8), key, d) == label_in(t.subrange(2, 8), key, d));
        assert(label_in(t.subrange(2, 8), key, d) == label_in(t.subrange(3, 8), key, d));
        assert(label_in(t.subrange(3, 8), key, d) == label_in(t.subrange(4, 8), key, d));
        assert(label_in(t.subrange(4, 8), key, d) == label_in(t.subrange(5, 8), key, d));
        assert(label_in(t.subrange(5, 8), key, d) == "Daily"@);
    } else if key == "weekly"@ {
        assert(label_in(t.subrange(0, 8), key, d) == label_in(t.subrange(1, 8), key, d));
        assert(label_in(t.subrange(1, 8), key, d) == label_in(t.subrange(2, 8), key, d));
        assert(label_in(t.subrange(2, 8), key, d) == label_in(t.subrange(3, 8), key, d));
        assert(label_in(t.subrange(3, 8), key, d) == label_in(t.subrange(4, 8), key, d));
        assert(label_in(t.subrange(4, 8), key, d) == label_in(t.subrange(5, 8), key, d));
        assert(label_in(t.subrange(5, 8), key, d) == label_in(t.subrange(6, 8), key, d));
        assert(label_in(t.subrange(6, 8), key, d) == "Weekly"@);
    } else if key == "monthly"@ {
        assert(label_in(t.subrange(0, 8), key, d) == label_in(t.subrange(1, 8), key, d));
        assert(label_in(t.subrange(1, 8), key, d) == label_in(t.subrange(2, 8), key, d));
        assert(label_in(t.subrange(2, 8), key, d) == label_in(t.subrange(3, 8), key, d));
        assert(label_in(t.subrange(3, 8), key, d) == label_in(t.subrange(4, 8), key, d));
        assert(label_in(t.subrange(4, 8), key, d) == label_in(t.subrange(5, 8), key, d));
        assert(label_in(t.subrange(5, 8), key, d) == label_in(t.subrange(6, 8), key, d));
        assert(label_in(t.subrange(6, 8), key, d) == label_in(t.subrange(7, 8), key, d));
        assert(label_in(t.subrange(7, 8), key, d) == "Monthly"@);
    } else {
        assert(label_in(t.subrange(0, 8), key, d) == label_in(t.subrange(1, 8), key, d));
        assert(label_in(t.subrange(1, 8), key, d) == label_in(t.subrange(2, 8), key, d));
        assert(label_in(t.subrange(2, 8), key, d) == label_in(t.subrange(3, 8), key, d));
        assert(label_in(t.subrange(3, 8), key, d) == label_in(t.subrange(4, 8), key, d));
        assert(label_in(t.subrange(4, 8), key, d) == label_in(t.subrange(5, 8), key, d));
        assert(label_in(t.subrange(5, 8), key, d) == label_in(t.subrange(6, 8), key, d));
        assert(label_in(t.subrange(6, 8), key, d) == label_in(t.subrange(7, 8), key, d));
        assert(label_in(t.subrange(7, 8), key, d) == label_in(t.subrange(8, 8), key, d));
        assert(label_in(t.subrange(8, 8), key, d) == d);
    }
}

/// The frame-rate caps offered (0 = none), with labels.
pub open spec fn fps_table() -> Seq<(u32, Seq<char>)> {
    seq![(0u32, "Uncapped"@), (15u32, "15 fps"@), (24u32, "24 fps"@), (30u32, "30 fps"@)]
}

/// The frame-rate caps offered, in menu order.
pub fn fps_caps() -> (r: Vec<(u32, &'static str)>)
    ensures
        r@.map_values(|p: (u32, &str)| (p.0, p.1@)) == fps_table(),
{
    let mut r: Vec<(u32, &'static str)> = Vec::new();
    r.push((0, "Uncapped"));
    r.push((15, "15 fps"));
    r.push((24, "24 fps"));
    r.push((30, "30 fps"));
    assert(r@.map_values(|p: (u32, &str)| (p.0, p.1@)) =~= fps_table());
    r
}

/// The label of a saved frame-rate cap; one not offered reads as uncapped.
pub fn fps_cap_label(cap: u32) -> (r: &'static str)
    ensures
        r@ == (if cap == 15 {
            "15 fps"@
        } else if cap == 24 {
            "24 fps"@
        } else if cap == 30 {
            "30 fps"@
        } else {
            "Uncapped"@
        }),
{
    if cap == 0 {
        "Uncapped"
    } else if cap == 15 {
        "15 fps"
    } else if cap == 24 {
        "24 fps"
    } else if cap == 30 {
        "30 fps"
    } else {
        "Uncapped"
    }
}

/// The rotation scope of one fleet.
pub fn fleet_scope(key: &str) -> (r: String)
    ensures
        r@ == "faction:"@ + key@,
{
    let mut r = owned("faction:");
    r.append(key);
    r
}

/// The label of a rotation scope: all skins, the favourites with their
/// number, or a fleet's name (all skins again for an unknown fleet).
pub fn scope_label(data: &Data, scope: &str, favorites: usize) -> (r: String)
    ensures
        scope@ == "all"@ ==> r@ == "All skins"@,
        scope@ != "all"@ && scope@ == "favorites"@ ==> r@ == "★ Favorites ("@ + decimal_digits(
            favorites as nat,
        ) + ")"@,
        scope@ != "all"@ && scope@ != "favorites"@ ==> {
            let key = if has_prefix(scope@, "faction:"@) {
                scope@.skip("faction:"@.len() as int)
            } else {
                seq![]
            };
            &&& (forall|i: int|
                0 <= i < data.factions_view().len() ==> data.factions_view()[i].key@ != key)
                ==> r@ == "All skins"@
            &&& forall|i: int|
                0 <= i < data.factions_view().len() && data.factions_view()[i].key@ == key
                    && (forall|j: int|
                    0 <= j < i ==> #[trigger] data.factions_view()[j].key@ != key) ==> r@
                    == data.factions_view()[i].name@
        },
{
    if str_equal(scope, "all") {
        owned("All skins")
    } else if str_equal(scope, "favorites") {
        let mut r = owned("★ Favorites (");
        r.append(decimal(favorites as u64).as_str());
        r.append(")");
        r
    } else {
        let key = match strip_prefix(scope, "faction:") {
            Some(k) => k,
            None => String::new(),
        };
        match data.faction(key.as_str()) {
            Some(f) => {
                proof {
                    let i = choose|i: int|
                        0 <= i < data.factions_view().len() && data.factions_view()[i] == *f
                            && f.key@ == key@ && forall|j: int|
                            0 <= j < i ==> #[trigger] data.factions_view()[j].key@ != key@;
                    assert forall|i2: int|
                        0 <= i2 < data.factions_view().len() && data.factions_view()[i2].key@
                            == key@ && (forall|j: int|
                            0 <= j < i2 ==> #[trigger] data.factions_view()[j].key@ != key@)
                            implies f.name@ == data.factions_view()[i2].name@ by {
                        if i2 < i {
                            assert(data.factions_view()[i2].key@ != key@);
                        } else if i < i2 {
                            assert(data.factions_view()[i].key@ != key@);
                        }
                    }
                }
                owned(f.name.as_str())
            },
            None => owned("All skins"),
        }
    }
}

/// The factions that have skins, as positions in display order.
pub fn listed_factions(data: &Data) -> (r: Vec<usize>)
    ensures
        forall|a: int, b: int| 0 <= a < b < r@.len() ==> r@[a] < r@[b],
        forall|k: int|
            0 <= k < r@.len() ==> #[trigger] r@[k] < data.factions_view().len() && fleet_size(
                data.skins_view(),
                data.factions_view()[r@[k] as int].key@,
            ) > 0,
        forall|i: usize|
            i < data.factions_view().len() && fleet_size(
                data.skins_view(),
                data.factions_view()[i as int].key@,
            ) > 0 ==> #[trigger] r@.contains(i),
{
    let fs = data.factions();
    let mut r: Vec<usize> = Vec::new();
    let mut i: usize = 0;
    while i < fs.len()
        invariant
            fs@ == data.factions_view(),
            i <= fs.len(),
            forall|a: int, b: int| 0 <= a < b < r@.len() ==> r@[a] < r@[b],
            forall|k: int|
                0 <= k < r@.len() ==> #[trigger] r@[k] < i && fleet_size(
                    data.skins_view(),
                    fs@[r@[k] as int].key@,
                ) > 0,
            forall|j: usize|
                j < i && fleet_size(data.skins_view(), fs@[j as int].key@) > 0
                    ==> #[trigger] r@.contains(j),
        decreases fs.len() - i,
    {
        let ghost old_r = r@;
        if data.count(fs[i].key.as_str()) > 0 {
            r.push(i);
        }
        proof {
            assert forall|j: usize|
                j < i + 1 && fleet_size(data.skins_view(), fs@[j as int].key@) > 0
                    implies #[trigger] r@.contains(j) by {
                if j < i {
                    assert(old_r.contains(j));
                    let c = choose|c: int| 0 <= c < old_r.len() && old_r[c] == j;
                    assert(r@[c] == j);
                } else {
                    assert(r@[r@.len() - 1] == i);
                }
            }
        }
        i += 1;
    }
    r
}

} // verus!
