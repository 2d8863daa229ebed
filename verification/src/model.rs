//! The catalogue model: skins, factions and their palettes, monitors, the
//! saved settings, favourites, colour parsing, and the indexed catalogue
//! (`Data`) that groups skins by faction.
use vstd::prelude::*;
use crate::assoc::StrMap;
use crate::text::{
    chars_of, string_of, sub_chars, owned, str_equal, to_lower, lowercase, parse_hex_u8,
    hex_u8_value,
};
use crate::order::{
    SortKey, key_view, key_views, pair_lt, pos_before, sort_positions, sort_by_number,
    sorts_by_number, lemma_pair_lt_facts,
};

verus! {

/// `PathBuf` only passes through the catalogue (the data root).
#[verifier::external_type_specification]
#[verifier::external_body]
pub struct ExPathBuf(std::path::PathBuf);

// ---------------------------------------------------------------------------
// records
// ---------------------------------------------------------------------------

/// One wallpaper skin of the catalogue.
pub struct Skin {
    pub codename: String,
    pub ship: String,
    pub faction: String,
    pub rarity: Option<String>,
    pub skin_name: Option<String>,
    pub is_oath: bool,
    pub thumb: String,
}

/// A copy of an optional string.
pub fn clone_opt(s: &Option<String>) -> (r: Option<String>)
    ensures
        r == *s,
{
    match s {
        Some(x) => Some(x.clone()),
        None => None,
    }
}

impl Clone for Skin {
    fn clone(&self) -> (r: Self)
        ensures
            r == *self,
    {
        Skin {
            codename: self.codename.clone(),
            ship: self.ship.clone(),
            faction: self.faction.clone(),
            rarity: clone_opt(&self.rarity),
            skin_name: clone_opt(&self.skin_name),
            is_oath: self.is_oath,
            thumb: self.thumb.clone(),
        }
    }
}

/// A faction's colours, as `#rrggbb` strings.
pub struct Palette {
    pub bg: String,
    pub panel: String,
    pub accent: String,
    pub accent2: String,
    pub text: String,
    pub muted: String,
}

impl Clone for Palette {
    fn clone(&self) -> (r: Self)
        ensures
            r == *self,
    {
        Palette {
            bg: self.bg.clone(),
            panel: self.panel.clone(),
            accent: self.accent.clone(),
            accent2: self.accent2.clone(),
            text: self.text.clone(),
            muted: self.muted.clone(),
        }
    }
}

/// A faction (fleet): its key, display names, position and palette.
pub struct Faction {
    pub key: String,
    pub name: String,
    pub short: String,
    pub order: i32,
    pub palette: Palette,
}

impl Clone for Faction {
    fn clone(&self) -> (r: Self)
        ensures
            r == *self,
    {
        Faction {
            key: self.key.clone(),
            name: self.name.clone(),
            short: self.short.clone(),
            order: self.order,
            palette: self.palette.clone(),
        }
    }
}

/// A connected monitor and its resolution.
pub struct Monitor {
    pub name: String,
    pub w: u32,
    pub h: u32,
}

impl Clone for Monitor {
    fn clone(&self) -> (r: Self)
        ensures
            r == *self,
    {
        Monitor { name: self.name.clone(), w: self.w, h: self.h }
    }
}

/// Automatic rotation settings.
pub struct RotationCfg {
    pub enabled: bool,
    pub interval: String,
    pub scope: String,
    pub per_monitor: bool,
    pub last_run: i64,
}

impl Clone for RotationCfg {
    fn clone(&self) -> (r: Self)
        ensures
            r == *self,
    {
        RotationCfg {
            enabled: self.enabled,
            interval: self.interval.clone(),
            scope: self.scope.clone(),
            per_monitor: self.per_monitor,
            last_run: self.last_run,
        }
    }
}

/// The rotation interval used when none is saved: every 30 minutes.
pub fn def_interval() -> (r: String)
    ensures
        r@ == "30m"@,
{
    owned("30m")
}

/// The rotation pool used when none is saved: all skins.
pub fn def_scope() -> (r: String)
    ensures
        r@ == "all"@,
{
    owned("all")
}

impl Default for RotationCfg {
    fn default() -> (r: Self)
        ensures
            !r.enabled,
            r.interval@ == "30m"@,
            r.scope@ == "all"@,
            !r.per_monitor,
            r.last_run == 0,
    {
        RotationCfg {
            enabled: false,
            interval: def_interval(),
            scope: def_scope(),
            per_monitor: false,
            last_run: 0,
        }
    }
}

/// Power-saving settings: what to do while the wallpaper is hidden, a frame
/// rate cap (0 = none), and what to do on battery.
pub struct PowerCfg {
    pub mode: String,
    pub fps_cap: u32,
    pub battery: String,
}

impl Clone for PowerCfg {
    fn clone(&self) -> (r: Self)
        ensures
            r == *self,
    {
        PowerCfg { mode: self.mode.clone(), fps_cap: self.fps_cap, battery: self.battery.clone() }
    }
}

/// The hidden-wallpaper mode used when none is saved: pause the video.
pub fn def_power_mode() -> (r: String)
    ensures
        r@ == "pause"@,
{
    owned("pause")
}

/// The battery mode used when none is saved: off.
pub fn def_power_battery() -> (r: String)
    ensures
        r@ == "off"@,
{
    owned("off")
}

impl Default for PowerCfg {
    fn default() -> (r: Self)
        ensures
            r.mode@ == "pause"@,
            r.fps_cap == 0,
            r.battery@ == "off"@,
    {
        PowerCfg { mode: def_power_mode(), fps_cap: 0, battery: def_power_battery() }
    }
}

/// The saved state: per-monitor skin and fit, rotation and power settings.
pub struct State {
    pub outputs: StrMap,
    pub fit: StrMap,
    pub rotation: RotationCfg,
    pub power: PowerCfg,
}

impl Default for State {
    fn default() -> (r: Self)
        ensures
            r.outputs@ == Map::<Seq<char>, Seq<char>>::empty(),
            r.fit@ == Map::<Seq<char>, Seq<char>>::empty(),
            !r.rotation.enabled,
            r.rotation.interval@ == "30m"@,
            r.rotation.scope@ == "all"@,
            !r.rotation.per_monitor,
            r.rotation.last_run == 0,
            r.power.mode@ == "pause"@,
            r.power.fps_cap == 0,
            r.power.battery@ == "off"@,
    {
        State {
            outputs: StrMap::new(),
            fit: StrMap::new(),
            rotation: RotationCfg::default(),
            power: PowerCfg::default(),
        }
    }
}

// ---------------------------------------------------------------------------
// fit modes
// ---------------------------------------------------------------------------

/// How a wallpaper is scaled to a monitor.
#[derive(Clone, Copy, PartialEq, Eq, Structural, Debug)]
pub enum Fit {
    Fit,
    Stretch,
    Crop,
}

/// The key under which a fit mode is saved.
pub open spec fn fit_key(f: Fit) -> Seq<char> {
    match f {
        Fit::Fit => "fit"@,
        Fit::Stretch => "stretch"@,
        Fit::Crop => "crop"@,
    }
}

/// The fit mode a saved key stands for; anything unknown means `Fit`.
pub open spec fn fit_of_key(s: Seq<char>) -> Fit {
    if s == "stretch"@ {
        Fit::Stretch
    } else if s == "crop"@ {
        Fit::Crop
    } else {
        Fit::Fit
    }
}

/// The button label of a fit mode.
pub open spec fn fit_label(f: Fit) -> Seq<char> {
    match f {
        Fit::Fit => "Fit"@,
        Fit::Stretch => "Stretch"@,
        Fit::Crop => "Crop"@,
    }
}

/// A lower-case ASCII letter in upper case; other characters unchanged.
pub open spec fn ascii_upper(c: char) -> char {
    if 'a' <= c && c <= 'z' {
        ((c as int) - 32) as char
    } else {
        c
    }
}

impl Fit {
    /// The saved key of this mode.
    pub fn key(self) -> (r: &'static str)
        ensures
            r@ == fit_key(self),
    {
        match self {
            Fit::Fit => "fit",
            Fit::Stretch => "stretch",
            Fit::Crop => "crop",
        }
    }

    /// The button label of this mode.
    pub fn label(self) -> (r: &'static str)
        ensures
            r@ == fit_label(self),
    {
        match self {
            Fit::Fit => "Fit",
            Fit::Stretch => "Stretch",
            Fit::Crop => "Crop",
        }
    }

    /// The mode saved under `s`; unknown keys fall back to `Fit`.
    pub fn from_key(s: &str) -> (r: Fit)
        ensures
            r == fit_of_key(s@),
    {
        if str_equal(s, "stretch") {
            Fit::Stretch
        } else if str_equal(s, "crop") {
            Fit::Crop
        } else {
            Fit::Fit
        }
    }

    /// Every mode, in button order.
    pub fn all() -> (r: [Fit; 3])
        ensures
            r@ == seq![Fit::Fit, Fit::Stretch, Fit::Crop],
    {
        let r = [Fit::Fit, Fit::Stretch, Fit::Crop];
        assert(r@ =~= seq![Fit::Fit, Fit::Stretch, Fit::Crop]);
        r
    }
}

/// The fit mode saved for a monitor; `Fit` when none is saved.
pub fn fit_for(fit: &StrMap, monitor: &str) -> (r: Fit)
    ensures
        r == (if fit@.contains_key(monitor@) {
            fit_of_key(fit@[monitor@])
        } else {
            Fit::Fit
        }),
{
    match fit.get(monitor) {
        Some(k) => Fit::from_key(k.as_str()),
        None => Fit::Fit,
    }
}

/// A mode's label is its key with the first letter in upper case, and the
/// modes' labels differ.
pub proof fn lemma_fit_label_is_capitalised_key(f: Fit, g: Fit)
    ensures
        fit_key(f).len() > 0,
        fit_label(f) == seq![ascii_upper(fit_key(f)[0])] + fit_key(f).drop_first(),
        f != g ==> fit_label(f) != fit_label(g),
{
    reveal_strlit("fit");
    reveal_strlit("stretch");
    reveal_strlit("crop");
    reveal_strlit("Fit");
    reveal_strlit("Stretch");
    reveal_strlit("Crop");
    assert(fit_label(f) =~= seq![ascii_upper(fit_key(f)[0])] + fit_key(f).drop_first());
    if f != g {
        assert(fit_label(f)[0] != fit_label(g)[0]);
    }
}

/// Reading back the key of a mode gives the mode again.
pub proof fn lemma_fit_key_roundtrip(f: Fit)
    ensures
        fit_of_key(fit_key(f)) == f,
{
    reveal_strlit("fit");
    reveal_strlit("stretch");
    reveal_strlit("crop");
    assert("fit"@[0] != "stretch"@[0]);
    assert("fit"@[0] != "crop"@[0]);
    assert("crop"@[0] != "stretch"@[0]);
}

// ---------------------------------------------------------------------------
// colours
// ---------------------------------------------------------------------------

/// An opaque colour.
#[derive(Clone, Copy, PartialEq, Eq, Structural, Debug)]
pub struct Rgb {
    pub r: u8,
    pub g: u8,
    pub b: u8,
}

/// The grey shown for a colour string too short to read.
pub open spec fn gray() -> Rgb {
    Rgb { r: 160, g: 160, b: 160 }
}

/// `s` without its leading `#` characters.
pub open spec fn trim_hash(s: Seq<char>) -> Seq<char>
    decreases s.len(),
{
    if s.len() > 0 && s[0] == '#' {
        trim_hash(s.drop_first())
    } else {
        s
    }
}

/// The number of bytes UTF-8 takes for a character.
pub open spec fn utf8_width(c: char) -> nat {
    if (c as int) < 0x80 {
        1
    } else if (c as int) < 0x800 {
        2
    } else if (c as int) < 0x10000 {
        3
    } else {
        4
    }
}

/// The UTF-8 length of a string, in bytes.
pub open spec fn byte_len(s: Seq<char>) -> nat
    decreases s.len(),
{
    if s.len() == 0 {
        0
    } else {
        byte_len(s.drop_last()) + utf8_width(s.last())
    }
}

/// Byte offset `n` of `s` falls between two characters.
pub open spec fn is_boundary(s: Seq<char>, n: nat) -> bool {
    exists|k: int| 0 <= k <= s.len() && byte_len(s.take(k)) == n
}

/// The character position at byte offset `n` (a boundary).
pub open spec fn char_pos(s: Seq<char>, n: nat) -> int {
    choose|k: int| 0 <= k <= s.len() && byte_len(s.take(k)) == n
}

/// The characters between byte offsets `a` and `b`.
pub open spec fn byte_piece(s: Seq<char>, a: nat, b: nat) -> Seq<char> {
    s.subrange(char_pos(s, a), char_pos(s, b))
}

/// The colour strings `hex` takes: once the `#`s are trimmed, a string of six
/// bytes or more must have character boundaries at bytes 2, 4 and 6 (where
/// it is cut into channels).
pub open spec fn hex_accepted(s: Seq<char>) -> bool {
    let t = trim_hash(s);
    byte_len(t) >= 6 ==> (is_boundary(t, 2) && is_boundary(t, 4) && is_boundary(t, 6))
}

/// One colour channel: the hex number in `p`, or 200 when it is not one.
pub open spec fn channel(p: Seq<char>) -> u8 {
    match hex_u8_value(p) {
        Some(v) => v,
        None => 200,
    }
}

/// The colour a `#rrggbb` string stands for: grey when shorter than six
/// bytes, else one channel per two bytes.
pub open spec fn hex_color(s: Seq<char>) -> Rgb {
    let t = trim_hash(s);
    if byte_len(t) < 6 {
        gray()
    } else {
        Rgb {
            r: channel(byte_piece(t, 0, 2)),
            g: channel(byte_piece(t, 2, 4)),
            b: channel(byte_piece(t, 4, 6)),
        }
    }
}

proof fn lemma_byte_len_step(s: Seq<char>, k: int)
    requires
        0 <= k < s.len(),
    ensures
        byte_len(s.take(k + 1)) == byte_len(s.take(k)) + utf8_width(s[k]),
{
    assert(s.take(k + 1).drop_last() =~= s.take(k));
}

proof fn lemma_byte_len_grows(s: Seq<char>, j: int, k: int)
    requires
        0 <= j < k <= s.len(),
    ensures
        byte_len(s.take(j)) < byte_len(s.take(k)),
    decreases k - j,
{
    lemma_byte_len_step(s, k - 1);
    if j < k - 1 {
        lemma_byte_len_grows(s, j, k - 1);
    }
}

proof fn lemma_char_pos(s: Seq<char>, n: nat, k: int)
    requires
        0 <= k <= s.len(),
        byte_len(s.take(k)) == n,
    ensures
        char_pos(s, n) == k,
{
    let c = char_pos(s, n);
    assert(0 <= c <= s.len() && byte_len(s.take(c)) == n);
    if c < k {
        lemma_byte_len_grows(s, c, k);
    } else if k < c {
        lemma_byte_len_grows(s, k, c);
    }
}

proof fn lemma_trim_hash_skip(s: Seq<char>, i: int)
    requires
        0 <= i <= s.len(),
        forall|j: int| 0 <= j < i ==> s[j] == '#',
    ensures
        trim_hash(s) == trim_hash(s.skip(i)),
    decreases i,
{
    if i > 0 {
        assert(s.drop_first().skip(i - 1) =~= s.skip(i));
        lemma_trim_hash_skip(s.drop_first(), i - 1);
    } else {
        assert(s.skip(0) =~= s);
    }
}

/// The width of a character in UTF-8.
fn char_width(c: char) -> (r: usize)
    ensures
        r == utf8_width(c),
{
    let v = c as u32;
    if v < 0x80 {
        1
    } else if v < 0x800 {
        2
    } else if v < 0x10000 {
        3
    } else {
        4
    }
}

/// One colour channel from the characters `t[a..b]`.
fn read_channel(t: &Vec<char>, a: usize, b: usize) -> (r: u8)
    requires
        a <= b <= t.len(),
    ensures
        r == channel(t@.subrange(a as int, b as int)),
{
    let piece = string_of(&sub_chars(t, a, b));
    match parse_hex_u8(piece.as_str()) {
        Some(v) => v,
        None => 200,
    }
}

/// Where a trimmed colour string is cut: the characters after the `#`s,
/// whether they take six bytes or more, and, when they do, the character
/// positions of bytes 2, 4 and 6 (`None` where a byte offset falls inside a
/// character).
fn hex_layout(s: &str) -> (r: (Vec<char>, bool, Option<usize>, Option<usize>, Option<usize>))
    ensures
        r.0@ == trim_hash(s@),
        r.1 == (byte_len(r.0@) >= 6),
        r.1 ==> (r.2 is Some <==> is_boundary(r.0@, 2)),
        r.1 ==> (r.3 is Some <==> is_boundary(r.0@, 4)),
        r.1 ==> (r.4 is Some <==> is_boundary(r.0@, 6)),
        r.2 matches Some(x) ==> x <= r.0@.len() && byte_len(r.0@.take(x as int)) == 2,
        r.3 matches Some(x) ==> x <= r.0@.len() && byte_len(r.0@.take(x as int)) == 4,
        r.4 matches Some(x) ==> x <= r.0@.len() && byte_len(r.0@.take(x as int)) == 6,
{
    let cs = chars_of(s);
    let mut start: usize = 0;
    while start < cs.len() && cs[start] == '#'
        invariant
            start <= cs.len(),
            forall|j: int| 0 <= j < start ==> cs@[j] == '#',
        decreases cs.len() - start,
    {
        start += 1;
    }
    let t = sub_chars(&cs, start, cs.len());
    proof {
        assert(t@ =~= cs@.skip(start as int));
        lemma_trim_hash_skip(cs@, start as int);
        if t@.len() > 0 {
            assert(t@[0] != '#');
        }
        assert(trim_hash(t@) == t@);
        assert(trim_hash(s@) == t@);
    }
    // walk the characters until six bytes are covered, noting where bytes 2, 4, 6 fall
    let mut k: usize = 0;
    let mut total: usize = 0;
    let mut at2: Option<usize> = None;
    let mut at4: Option<usize> = None;
    let mut at6: Option<usize> = None;
    assert(t@.take(0) =~= Seq::<char>::empty());
    while k < t.len() && total < 6
        invariant
            k <= t.len(),
            total == byte_len(t@.take(k as int)),
            forall|j: int| 0 <= j <= k && byte_len(t@.take(j)) == 2 ==> at2 == Some(j as usize),
            forall|j: int| 0 <= j <= k && byte_len(t@.take(j)) == 4 ==> at4 == Some(j as usize),
            forall|j: int| 0 <= j <= k && byte_len(t@.take(j)) == 6 ==> at6 == Some(j as usize),
            at2 matches Some(x) ==> x <= k && byte_len(t@.take(x as int)) == 2,
            at4 matches Some(x) ==> x <= k && byte_len(t@.take(x as int)) == 4,
            at6 matches Some(x) ==> x <= k && byte_len(t@.take(x as int)) == 6,
        decreases t.len() - k,
    {
        let w = char_width(t[k]);
        proof {
            lemma_byte_len_step(t@, k as int);
            assert forall|j: int| 0 <= j < k + 1 implies #[trigger] byte_len(t@.take(j)) < byte_len(
                t@.take(k + 1),
            ) by {
                lemma_byte_len_grows(t@, j, k + 1);
            }
        }
        total = total + w;
        k = k + 1;
        if total == 2 {
            at2 = Some(k);
        }
        if total == 4 {
            at4 = Some(k);
        }
        if total == 6 {
            at6 = Some(k);
        }
    }
    if total < 6 {
        assert(t@.take(k as int) =~= t@);
        return (t, false, at2, at4, at6);
    }
    proof {
        if k < t@.len() {
            lemma_byte_len_grows(t@, k as int, t@.len() as int);
        }
        assert(t@.take(t@.len() as int) =~= t@);
        assert(byte_len(t@) >= 6);
        // every boundary up to byte 6 lies within the walked prefix
        assert forall|n: nat| n <= 6 && #[trigger] is_boundary(t@, n) implies exists|j: int|
            0 <= j <= k && byte_len(t@.take(j)) == n by {
            let j = choose|j: int| 0 <= j <= t@.len() && byte_len(t@.take(j)) == n;
            if j > k {
                lemma_byte_len_grows(t@, k as int, j);
            }
        }
        if at2 is Some {
            assert(is_boundary(t@, 2));
        }
        if at4 is Some {
            assert(is_boundary(t@, 4));
        }
        if at6 is Some {
            assert(is_boundary(t@, 6));
        }
    }
    (t, true, at2, at4, at6)
}

/// Whether `hex` can read `s` (the byte offsets where it cuts the channels
/// fall between characters).
pub fn hex_readable(s: &str) -> (r: bool)
    ensures
        r == hex_accepted(s@),
{
    let (_t, long, a2, a4, a6) = hex_layout(s);
    !long || (a2.is_some() && a4.is_some() && a6.is_some())
}

/// Reads a `#rrggbb` colour (any number of leading `#`); a string shorter
/// than six bytes gives grey, and a channel that is not a hex number gives 200.
pub fn hex(s: &str) -> (r: Rgb)
    requires
        hex_accepted(s@),
    ensures
        r == hex_color(s@),
{
    let (t, long, a2, a4, a6) = hex_layout(s);
    if !long {
        return Rgb { r: 160, g: 160, b: 160 };
    }
    let p2 = a2.unwrap();
    let p4 = a4.unwrap();
    let p6 = a6.unwrap();
    proof {
        assert(byte_len(t@.take(0)) == 0);
        lemma_char_pos(t@, 0, 0);
        lemma_char_pos(t@, 2, p2 as int);
        lemma_char_pos(t@, 4, p4 as int);
        lemma_char_pos(t@, 6, p6 as int);
        if p4 < p2 {
            lemma_byte_len_grows(t@, p4 as int, p2 as int);
        }
        if p6 < p4 {
            lemma_byte_len_grows(t@, p6 as int, p4 as int);
        }
    }
    let r = read_channel(&t, 0, p2);
    let g = read_channel(&t, p2, p4);
    let b = read_channel(&t, p4, p6);
    Rgb { r, g, b }
}

// ---------------------------------------------------------------------------
// the indexed catalogue
// ---------------------------------------------------------------------------

/// The order of skins inside a fleet: lower-cased ship name, then codename.
pub open spec fn skin_key(s: Skin) -> (Seq<char>, Seq<char>) {
    (lowercase(s.ship@), s.codename@)
}

/// Skin `i` is listed before skin `j` in their fleet: by `skin_key`, and
/// among equal keys by catalogue position.
pub open spec fn skin_before(skins: Seq<Skin>, i: int, j: int) -> bool {
    pair_lt(skin_key(skins[i]), skin_key(skins[j])) || (skin_key(skins[i]) == skin_key(skins[j])
        && i < j)
}

/// Position `i` holds a skin of fleet `key`.
pub open spec fn in_fleet(skins: Seq<Skin>, key: Seq<char>, i: int) -> bool {
    0 <= i < skins.len() && skins[i].faction@ == key
}

/// The number of skins of fleet `key`.
pub open spec fn fleet_size(skins: Seq<Skin>, key: Seq<char>) -> nat
    decreases skins.len(),
{
    if skins.len() == 0 {
        0
    } else {
        fleet_size(skins.drop_last(), key) + if skins.last().faction@ == key {
            1nat
        } else {
            0nat
        }
    }
}

/// `m` lists the positions of the skins of fleet `key`, each once, in
/// display order.
pub open spec fn fleet_listing(skins: Seq<Skin>, key: Seq<char>, m: Seq<usize>) -> bool {
    &&& m.no_duplicates()
    &&& forall|k: int| 0 <= k < m.len() ==> in_fleet(skins, key, #[trigger] m[k] as int)
    &&& forall|i: usize| in_fleet(skins, key, i as int) ==> #[trigger] m.contains(i)
    &&& forall|a: int, b: int|
        0 <= a < b < m.len() ==> skin_before(skins, m[a] as int, m[b] as int)
    &&& m.len() == fleet_size(skins, key)
}

/// The order numbers of a list of factions.
pub open spec fn orders(fs: Seq<Faction>) -> Seq<i32> {
    fs.map_values(|f: Faction| f.order)
}

/// A fleet has no skins exactly when no skin belongs to it.
pub proof fn lemma_fleet_size_zero(skins: Seq<Skin>, key: Seq<char>)
    ensures
        (fleet_size(skins, key) == 0) <==> (forall|i: int|
            0 <= i < skins.len() ==> skins[i].faction@ != key),
    decreases skins.len(),
{
    if skins.len() > 0 {
        lemma_fleet_size_zero(skins.drop_last(), key);
        if fleet_size(skins, key) == 0 {
            assert forall|i: int| 0 <= i < skins.len() implies skins[i].faction@ != key by {
                if i < skins.len() - 1 {
                    assert(skins.drop_last()[i] == skins[i]);
                }
            }
        } else if forall|i: int| 0 <= i < skins.len() ==> skins[i].faction@ != key {
            assert(skins.last().faction@ != key);
            assert forall|i: int| 0 <= i < skins.drop_last().len() implies skins.drop_last()[
                i].faction@ != key by {
                assert(skins.drop_last()[i] == skins[i]);
            }
        }
    }
}

proof fn lemma_fleet_size_step(skins: Seq<Skin>, key: Seq<char>, i: int)
    requires
        0 <= i < skins.len(),
    ensures
        fleet_size(skins.take(i + 1), key) == fleet_size(skins.take(i), key) + if skins[i].faction@
            == key {
            1nat
        } else {
            0nat
        },
{
    assert(skins.take(i + 1).drop_last() =~= skins.take(i));
}

/// The positions of the skins of fleet `key`, in display order.
fn fleet_members(skins: &Vec<Skin>, key: &str) -> (r: Vec<usize>)
    ensures
        fleet_listing(skins@, key@, r@),
{
    let n = skins.len();
    let mut idx: Vec<usize> = Vec::new();
    let mut i: usize = 0;
    assert(skins@.take(0) =~= Seq::<Skin>::empty());
    while i < n
        invariant
            n == skins.len(),
            i <= n,
            idx@.len() == fleet_size(skins@.take(i as int), key@),
            forall|k: int| 0 <= k < idx@.len() ==> #[trigger] idx@[k] < i && in_fleet(
                skins@,
                key@,
                idx@[k] as int,
            ),
            forall|a: int, b: int| 0 <= a < b < idx@.len() ==> idx@[a] < idx@[b],
            forall|j: usize| j < i && in_fleet(skins@, key@, j as int) ==> #[trigger] idx@.contains(j),
        decreases n - i,
    {
        proof {
            lemma_fleet_size_step(skins@, key@, i as int);
        }
        let ghost old_idx = idx@;
        if str_equal(skins[i].faction.as_str(), key) {
            idx.push(i);
            proof {
                assert(idx@[idx@.len() - 1] == i);
            }
        }
        proof {
            assert forall|j: usize| j < i + 1 && in_fleet(skins@, key@, j as int) implies #[trigger] idx@.contains(j) by {
                if j < i {
                    assert(old_idx.contains(j));
                    let p = choose|p: int| 0 <= p < old_idx.len() && old_idx[p] == j;
                    assert(idx@[p] == j);
                } else {
                    assert(idx@[idx@.len() - 1] == i);
                }
            }
        }
        i += 1;
    }
    assert(skins@.take(n as int) =~= skins@);
    let m = idx.len();
    let mut keys: Vec<SortKey> = Vec::new();
    let mut q: usize = 0;
    while q < m
        invariant
            m == idx.len(),
            n == skins.len(),
            forall|k: int| 0 <= k < idx@.len() ==> #[trigger] idx@[k] < n,
            q <= m,
            keys@.len() == q,
            forall|p: int| 0 <= p < q ==> key_view(#[trigger] keys@[p]) == skin_key(
                skins@[idx@[p] as int],
            ),
        decreases m - q,
    {
        let s = &skins[idx[q]];
        let lower = to_lower(s.ship.as_str());
        let k = SortKey { major: chars_of(lower.as_str()), minor: chars_of(s.codename.as_str()) };
        keys.push(k);
        q += 1;
    }
    let perm = sort_positions(&keys);
    let ghost kv = key_views(keys@);
    assert forall|p: int| 0 <= p < m implies kv[p] == skin_key(skins@[idx@[p] as int]) by {
        assert(kv[p] == key_view(keys@[p]));
    }
    let mut members: Vec<usize> = Vec::new();
    let mut k: usize = 0;
    while k < m
        invariant
            m == idx.len(),
            perm@.len() == m,
            forall|j: int| 0 <= j < perm@.len() ==> perm@[j] < m,
            k <= m,
            members@.len() == k,
            forall|j: int| 0 <= j < k ==> #[trigger] members@[j] == idx@[perm@[j] as int],
        decreases m - k,
    {
        members.push(idx[perm[k]]);
        k += 1;
    }
    proof {
        let ms = members@;
        assert forall|a: int, b: int| 0 <= a < b < ms.len() implies ms[a] != ms[b] by {
            let pa = perm@[a] as int;
            let pb = perm@[b] as int;
            assert(perm@[a] != perm@[b]);
            if pa < pb {
                assert(idx@[pa] < idx@[pb]);
            } else {
                assert(idx@[pb] < idx@[pa]);
            }
        }
        assert forall|j: usize| in_fleet(skins@, key@, j as int) implies #[trigger] ms.contains(j) by {
            assert(idx@.contains(j));
            let p = choose|p: int| 0 <= p < idx@.len() && idx@[p] == j;
            assert(perm@.contains(p as usize));
            let c = choose|c: int| 0 <= c < perm@.len() && perm@[c] == p as usize;
            assert(ms[c] == j);
        }
        assert forall|a: int, b: int| 0 <= a < b < ms.len() implies skin_before(
            skins@,
            ms[a] as int,
            ms[b] as int,
        ) by {
            let pa = perm@[a] as int;
            let pb = perm@[b] as int;
            assert(pos_before(kv, pa, pb));
            if pa < pb {
                assert(idx@[pa] < idx@[pb]);
            }
        }
        assert forall|j: int| 0 <= j < ms.len() implies in_fleet(skins@, key@, #[trigger] ms[j] as int) by {
            assert(ms[j] == idx@[perm@[j] as int]);
        }
    }
    members
}

/// One fleet of the index: its key and its skins in display order.
struct Fleet {
    key: String,
    members: Vec<usize>,
}

/// The catalogue: factions in display order, all skins, and each fleet's
/// skins in display order.
pub struct Data {
    root: std::path::PathBuf,
    factions: Vec<Faction>,
    skins: Vec<Skin>,
    by_faction: Vec<Fleet>,
}

/// Every fleet lists its (non-empty) set of skins in display order, no key
/// repeats, and every skin's faction has a fleet.
spec fn index_ok(skins: Seq<Skin>, fleets: Seq<Fleet>) -> bool {
    &&& forall|g: int|
        0 <= g < fleets.len() ==> fleet_listing(skins, #[trigger] fleets[g].key@, fleets[g].members@)
            && fleets[g].members@.len() > 0
    &&& forall|g: int, h: int| 0 <= g < h < fleets.len() ==> fleets[g].key@ != fleets[h].key@
    &&& forall|j: int|
        #![trigger skins[j]]
        0 <= j < skins.len() ==> exists|g: int|
            0 <= g < fleets.len() && #[trigger] fleets[g].key@ == skins[j].faction@
}

/// The position of the fleet with key `key`, if any.
fn find_fleet(fleets: &Vec<Fleet>, key: &str) -> (r: Option<usize>)
    ensures
        r is None ==> forall|g: int| 0 <= g < fleets@.len() ==> fleets@[g].key@ != key@,
        r matches Some(g) ==> g < fleets@.len() && fleets@[g as int].key@ == key@,
{
    let mut g: usize = 0;
    while g < fleets.len()
        invariant
            g <= fleets.len(),
            forall|h: int| 0 <= h < g ==> fleets@[h].key@ != key@,
        decreases fleets.len() - g,
    {
        if str_equal(fleets[g].key.as_str(), key) {
            return Some(g);
        }
        g += 1;
    }
    None
}

/// The faction list has a faction with key `key`.
pub open spec fn has_faction(fs: Seq<Faction>, key: Seq<char>) -> bool {
    exists|i: int| 0 <= i < fs.len() && fs[i].key@ == key
}

/// The faction a skin is filed under: its own when the list has it, else `other`.
pub open spec fn bucket_key(fs: Seq<Faction>, key: Seq<char>) -> Seq<char> {
    if has_faction(fs, key) {
        key
    } else {
        "other"@
    }
}

/// `t` is skin `s` filed under `bucket_key` of its faction, all else kept.
pub open spec fn bucketed(fs: Seq<Faction>, s: Skin, t: Skin) -> bool {
    &&& t.codename == s.codename
    &&& t.ship == s.ship
    &&& t.rarity == s.rarity
    &&& t.skin_name == s.skin_name
    &&& t.is_oath == s.is_oath
    &&& t.thumb == s.thumb
    &&& t.faction@ == bucket_key(fs, s.faction@)
}

/// Some skin has a faction the list lacks, and the list has no `other`
/// faction to file it under.
pub open spec fn needs_other(fs: Seq<Faction>, skins: Seq<Skin>) -> bool {
    &&& exists|i: int| 0 <= i < skins.len() && !has_faction(fs, #[trigger] skins[i].faction@)
    &&& !has_faction(fs, "other"@)
}

/// The faction added for skins of unknown factions: key `other`, named
/// "Other", pennant "OTH", listed after every other faction, in the steel
/// colours of the fleet-select screen.
pub open spec fn is_other_faction(f: Faction) -> bool {
    &&& f.key@ == "other"@
    &&& f.name@ == "Other"@
    &&& f.short@ == "OTH"@
    &&& f.order == i32::MAX
    &&& f.palette.bg@ == "#0b0e12"@
    &&& f.palette.panel@ == "#131820"@
    &&& f.palette.accent@ == "#6f9bb8"@
    &&& f.palette.accent2@ == "#e8edf3"@
    &&& f.palette.text@ == "#e8edf3"@
    &&& f.palette.muted@ == "#8b99a8"@
}

/// The faction for skins whose faction the list lacks.
pub fn other_faction() -> (r: Faction)
    ensures
        is_other_faction(r),
{
    Faction {
        key: owned("other"),
        name: owned("Other"),
        short: owned("OTH"),
        order: i32::MAX,
        palette: Palette {
            bg: owned("#0b0e12"),
            panel: owned("#131820"),
            accent: owned("#6f9bb8"),
            accent2: owned("#e8edf3"),
            text: owned("#e8edf3"),
            muted: owned("#8b99a8"),
        },
    }
}

/// Whether the list has a faction with key `key`.
fn faction_listed(fs: &Vec<Faction>, key: &str) -> (r: bool)
    ensures
        r == has_faction(fs@, key@),
{
    let mut i: usize = 0;
    while i < fs.len()
        invariant
            i <= fs.len(),
            forall|j: int| 0 <= j < i ==> fs@[j].key@ != key@,
        decreases fs.len() - i,
    {
        if str_equal(fs[i].key.as_str(), key) {
            return true;
        }
        i += 1;
    }
    false
}

/// The skins, each filed under `bucket_key` of its faction, and whether
/// some skin's faction is missing from the list.
fn bucket_skins(fs: &Vec<Faction>, skins: &Vec<Skin>) -> (r: (Vec<Skin>, bool))
    ensures
        r.0@.len() == skins@.len(),
        forall|i: int| 0 <= i < skins@.len() ==> bucketed(fs@, skins@[i], #[trigger] r.0@[i]),
        r.1 == exists|i: int| 0 <= i < skins@.len() && !has_faction(fs@, #[trigger] skins@[i].faction@),
{
    let mut out: Vec<Skin> = Vec::new();
    let mut unknown = false;
    let mut i: usize = 0;
    while i < skins.len()
        invariant
            i <= skins.len(),
            out@.len() == i,
            forall|j: int| 0 <= j < i ==> bucketed(fs@, skins@[j], #[trigger] out@[j]),
            unknown == exists|j: int| 0 <= j < i && !has_faction(fs@, #[trigger] skins@[j].faction@),
        decreases skins.len() - i,
    {
        let s = &skins[i];
        if faction_listed(fs, s.faction.as_str()) {
            out.push(s.clone());
        } else {
            unknown = true;
            out.push(
                Skin {
                    codename: s.codename.clone(),
                    ship: s.ship.clone(),
                    faction: owned("other"),
                    rarity: clone_opt(&s.rarity),
                    skin_name: clone_opt(&s.skin_name),
                    is_oath: s.is_oath,
                    thumb: s.thumb.clone(),
                },
            );
        }
        proof {
            assert(bucketed(fs@, skins@[i as int], out@[i as int]));
        }
        i += 1;
    }
    (out, unknown)
}

/// A stable reordering of a faction list keeps its keys.
proof fn lemma_sorted_keeps_keys(fs: Seq<Faction>, perm: Seq<usize>, sorted: Seq<Faction>)
    requires
        sorts_by_number(orders(fs), perm),
        sorted == perm.map_values(|i: usize| fs[i as int]),
        fs.len() <= usize::MAX,
    ensures
        forall|k: Seq<char>| has_faction(fs, k) ==> #[trigger] has_faction(sorted, k),
{
    assert forall|k: Seq<char>| has_faction(fs, k) implies #[trigger] has_faction(sorted, k) by {
        let j = choose|j: int| 0 <= j < fs.len() && fs[j].key@ == k;
        assert(orders(fs).len() == fs.len());
        assert(perm.contains(j as usize));
        let c = choose|c: int| 0 <= c < perm.len() && perm[c] == j as usize;
        assert(sorted[c] == fs[perm[c] as int]);
        assert(sorted[c].key@ == k);
    }
}

/// The fleets of a list of skins, in order of first appearance.
fn build_fleets(skins: &Vec<Skin>) -> (fleets: Vec<Fleet>)
    ensures
        index_ok(skins@, fleets@),
{
        // fleets, in order of first appearance
        let n = skins.len();
        let mut fleets: Vec<Fleet> = Vec::new();
        let mut s: usize = 0;
        while s < n
            invariant
                n == skins.len(),
                s <= n,
                forall|g: int|
                    0 <= g < fleets@.len() ==> fleet_listing(
                        skins@,
                        #[trigger] fleets@[g].key@,
                        fleets@[g].members@,
                    ) && fleets@[g].members@.len() > 0,
                forall|g: int, h: int|
                    0 <= g < h < fleets@.len() ==> fleets@[g].key@ != fleets@[h].key@,
                forall|j: int|
                    #![trigger skins@[j]]
                    0 <= j < s ==> exists|g: int|
                        0 <= g < fleets@.len() && #[trigger] fleets@[g].key@ == skins@[j].faction@,
            decreases n - s,
        {
            let found = find_fleet(&fleets, skins[s].faction.as_str());
            if found.is_none() {
                let members = fleet_members(skins, skins[s].faction.as_str());
                proof {
                    assert(in_fleet(skins@, skins@[s as int].faction@, s as int));
                    assert(members@.contains(s));
                }
                let ghost old_fleets = fleets@;
                fleets.push(Fleet { key: skins[s].faction.clone(), members });
                proof {
                    let last = fleets@.len() - 1;
                    assert(fleets@[last].key@ == skins@[s as int].faction@);
                    assert forall|j: int| #![trigger skins@[j]] 0 <= j < s + 1 implies exists|g: int|
                        0 <= g < fleets@.len() && #[trigger] fleets@[g].key@
                            == skins@[j].faction@ by {
                        if j < s {
                            let g = choose|g: int|
                                0 <= g < old_fleets.len() && #[trigger] old_fleets[g].key@
                                    == skins@[j].faction@;
                            assert(fleets@[g] == old_fleets[g]);
                        } else {
                            assert(fleets@[last].key@ == skins@[j].faction@);
                        }
                    }
                }
            } else {
                proof {
                    let g = found.unwrap() as int;
                    assert(fleets@[g].key@ == skins@[s as int].faction@);
                }
            }
            s += 1;
        }
        proof {
            // the loop covered every skin
            assert(forall|g: int, h: int|
                0 <= g < h < fleets@.len() ==> fleets@[g].key@ != fleets@[h].key@);
            if n > 0 {
                assert(exists|g: int|
                    0 <= g < fleets@.len() && #[trigger] fleets@[g].key@ == skins@[0].faction@);
            }
            assert(forall|j: int|
                #![trigger skins@[j]]
                0 <= j < s ==> exists|g: int|
                    0 <= g < fleets@.len() && #[trigger] fleets@[g].key@ == skins@[j].faction@);
            assert forall|j: int| #![trigger skins@[j]] 0 <= j < skins@.len() implies exists|g: int|
                0 <= g < fleets@.len() && #[trigger] fleets@[g].key@ == skins@[j].faction@ by {
                assert(j < s);
            }
        }
        fleets
}

impl Data {
    #[verifier::type_invariant]
    spec fn well_indexed(&self) -> bool {
        index_ok(self.skins@, self.by_faction@)
    }

    /// The skins, in catalogue order.
    pub closed spec fn skins_view(&self) -> Seq<Skin> {
        self.skins@
    }

    /// The factions, in display order.
    pub closed spec fn factions_view(&self) -> Seq<Faction> {
        self.factions@
    }

    /// The data root.
    pub closed spec fn root_path(&self) -> std::path::PathBuf {
        self.root
    }

    /// The skins of fleet `key` in display order (empty for an unknown fleet).
    pub closed spec fn fleet(&self, key: Seq<char>) -> Seq<usize> {
        if exists|g: int| 0 <= g < self.by_faction@.len() && self.by_faction@[g].key@ == key {
            self.by_faction@[choose|g: int|
                0 <= g < self.by_faction@.len() && self.by_faction@[g].key@ == key].members@
        } else {
            seq![]
        }
    }

    /// Indexes a catalogue: the factions sorted stably by `order`, the skins
    /// grouped by faction, each group in display order. A skin whose faction
    /// is not in the list is filed under the faction `other`, which is added
    /// after the others (see `other_faction`) when the list lacks it, so no
    /// skin is left without a faction.
    pub fn new(root: std::path::PathBuf, factions: Vec<Faction>, skins: Vec<Skin>) -> (r: Data)
        ensures
            r.root_path() == root,
            r.skins_view().len() == skins@.len(),
            forall|i: int|
                0 <= i < skins@.len() ==> bucketed(factions@, skins@[i], #[trigger] r.skins_view()[i]),
            exists|perm: Seq<usize>|
                #[trigger] sorts_by_number(orders(factions@), perm) && r.factions_view().subrange(
                    0,
                    factions@.len() as int,
                ) == perm.map_values(|i: usize| factions@[i as int]),
            r.factions_view().len() == factions@.len() + if needs_other(factions@, skins@) {
                1int
            } else {
                0int
            },
            needs_other(factions@, skins@) ==> is_other_faction(r.factions_view().last()),
            forall|i: int|
                0 <= i < r.skins_view().len() ==> has_faction(
                    r.factions_view(),
                    #[trigger] r.skins_view()[i].faction@,
                ),
    {
        // factions: stable sort by order
        let nf = factions.len();
        let mut keys: Vec<i32> = Vec::new();
        let mut i: usize = 0;
        while i < nf
            invariant
                nf == factions.len(),
                i <= nf,
                keys@.len() == i,
                forall|j: int| 0 <= j < i ==> keys@[j] == factions@[j].order,
            decreases nf - i,
        {
            keys.push(factions[i].order);
            i += 1;
        }
        assert(keys@ =~= orders(factions@));
        let perm = sort_by_number(&keys);
        let mut sorted: Vec<Faction> = Vec::new();
        let mut k: usize = 0;
        while k < nf
            invariant
                nf == factions.len(),
                perm@.len() == nf,
                forall|j: int| 0 <= j < perm@.len() ==> perm@[j] < nf,
                k <= nf,
                sorted@.len() == k,
                forall|j: int| 0 <= j < k ==> #[trigger] sorted@[j] == factions@[perm@[j] as int],
            decreases nf - k,
        {
            sorted.push(factions[perm[k]].clone());
            k += 1;
        }
        assert(sorted@ =~= perm@.map_values(|i: usize| factions@[i as int]));
        assert(sorts_by_number(orders(factions@), perm@));
        proof {
            lemma_sorted_keeps_keys(factions@, perm@, sorted@);
        }
        // skins of an unknown faction go under `other`
        let (skins, unknown) = bucket_skins(&factions, &skins);
        let ghost base = sorted@;
        if unknown && !faction_listed(&factions, "other") {
            sorted.push(other_faction());
        }
        proof {
            assert(sorted@.subrange(0, nf as int) =~= base);
            assert forall|i: int| 0 <= i < skins@.len() implies has_faction(
                sorted@,
                #[trigger] skins@[i].faction@,
            ) by {
                let k = skins@[i].faction@;
                if has_faction(base, k) {
                    let j = choose|j: int| 0 <= j < base.len() && base[j].key@ == k;
                    assert(sorted@[j] == base[j]);
                } else {
                    assert(k == "other"@);
                    if has_faction(factions@, "other"@) {
                        assert(has_faction(base, k));
                    } else {
                        assert(sorted@[sorted@.len() - 1].key@ == "other"@);
                    }
                }
            }
        }
        let fleets = build_fleets(&skins);
        let r = Data { root, factions: sorted, skins, by_faction: fleets };
        r
    }

    /// The data root.
    pub fn root(&self) -> (r: &std::path::PathBuf)
        ensures
            *r == self.root_path(),
    {
        &self.root
    }

    /// The skins, in catalogue order.
    pub fn skins(&self) -> (r: &Vec<Skin>)
        ensures
            r@ == self.skins_view(),
    {
        &self.skins
    }

    /// The factions, in display order.
    pub fn factions(&self) -> (r: &Vec<Faction>)
        ensures
            r@ == self.factions_view(),
    {
        &self.factions
    }

    /// The skins of fleet `key`, in display order; `None` when it has none.
    pub fn members(&self, key: &str) -> (r: Option<&Vec<usize>>)
        ensures
            r is Some <==> fleet_size(self.skins_view(), key@) > 0,
            fleet_listing(self.skins_view(), key@, self.fleet(key@)),
            r matches Some(m) ==> m@ == self.fleet(key@),
            r is None ==> self.fleet(key@).len() == 0,
    {
        proof {
            use_type_invariant(self);
            lemma_fleet_size_zero(self.skins@, key@);
        }
        match find_fleet(&self.by_faction, key) {
            Some(g) => {
                proof {
                    let gi = g as int;
                    assert(fleet_listing(self.skins@, self.by_faction@[gi].key@, self.by_faction@[gi].members@));
                    let m = self.by_faction@[gi].members@;
                    assert(m.len() > 0);
                    let c = choose|c: int|
                        0 <= c < self.by_faction@.len() && self.by_faction@[c].key@ == key@;
                    if c != gi {
                        if c < gi {
                            assert(self.by_faction@[c].key@ != self.by_faction@[gi].key@);
                        } else {
                            assert(self.by_faction@[gi].key@ != self.by_faction@[c].key@);
                        }
                    }
                }
                Some(&self.by_faction[g].members)
            },
            None => {
                proof {
                    assert forall|j: int| 0 <= j < self.skins@.len() implies self.skins@[j].faction@
                        != key@ by {
                        let g = choose|g: int|
                            0 <= g < self.by_faction@.len() && #[trigger] self.by_faction@[g].key@
                                == self.skins@[j].faction@;
                    }
                    assert(self.fleet(key@) == Seq::<usize>::empty());
                    lemma_fleet_size_zero(self.skins@, key@);
                    assert(fleet_listing(self.skins@, key@, Seq::<usize>::empty()));
                }
                None
            },
        }
    }

    /// The number of skins of fleet `key`.
    pub fn count(&self, key: &str) -> (r: usize)
        ensures
            r == fleet_size(self.skins_view(), key@),
    {
        match self.members(key) {
            Some(m) => m.len(),
            None => 0,
        }
    }

    /// The first faction with key `key`.
    pub fn faction(&self, key: &str) -> (r: Option<&Faction>)
        ensures
            r is None ==> forall|i: int|
                0 <= i < self.factions_view().len() ==> self.factions_view()[i].key@ != key@,
            r matches Some(f) ==> exists|i: int|
                0 <= i < self.factions_view().len() && self.factions_view()[i] == *f
                    && f.key@ == key@ && forall|j: int|
                    0 <= j < i ==> #[trigger] self.factions_view()[j].key@ != key@,
    {
        let mut i: usize = 0;
        while i < self.factions.len()
            invariant
                i <= self.factions@.len(),
                forall|j: int| 0 <= j < i ==> #[trigger] self.factions@[j].key@ != key@,
            decreases self.factions.len() - i,
        {
            if str_equal(self.factions[i].key.as_str(), key) {
                assert(self.factions_view()[i as int] == self.factions@[i as int]);
                return Some(&self.factions[i]);
            }
            i += 1;
        }
        None
    }

    /// The position of the last skin with codename `code`.
    pub fn index_of(&self, code: &str) -> (r: Option<usize>)
        ensures
            r is None ==> forall|i: int|
                0 <= i < self.skins_view().len() ==> self.skins_view()[i].codename@ != code@,
            r matches Some(i) ==> i < self.skins_view().len() && self.skins_view()[i as int].codename@
                == code@ && forall|j: int|
                i < j < self.skins_view().len() ==> #[trigger] self.skins_view()[j].codename@
                    != code@,
    {
        let mut i: usize = self.skins.len();
        while i > 0
            invariant
                i <= self.skins@.len(),
                forall|j: int| i <= j < self.skins@.len() ==> #[trigger] self.skins@[j].codename@
                    != code@,
            decreases i,
        {
            i -= 1;
            if str_equal(self.skins[i].codename.as_str(), code) {
                return Some(i);
            }
        }
        None
    }

    /// The ship name of the skin with codename `code` (the last such skin),
    /// or the codename itself when the catalogue has none.
    pub fn ship_of(&self, code: &str) -> (r: String)
        ensures
            (forall|i: int|
                0 <= i < self.skins_view().len() ==> self.skins_view()[i].codename@ != code@)
                ==> r@ == code@,
            forall|i: int|
                0 <= i < self.skins_view().len() && self.skins_view()[i].codename@ == code@
                    && (forall|j: int|
                    i < j < self.skins_view().len() ==> #[trigger] self.skins_view()[j].codename@
                        != code@) ==> r@ == self.skins_view()[i].ship@,
    {
        match self.index_of(code) {
            Some(i) => self.skins[i].ship.clone(),
            None => owned(code),
        }
    }
}

/// A skin is listed in a fleet exactly when it belongs to that faction.
pub proof fn lemma_fleet_membership(skins: Seq<Skin>, key: Seq<char>, m: Seq<usize>, i: usize)
    requires
        fleet_listing(skins, key, m),
        (i as int) < skins.len(),
    ensures
        m.contains(i) <==> skins[i as int].faction@ == key,
{
    if m.contains(i) {
        let k = choose|k: int| 0 <= k < m.len() && m[k] == i;
        assert(in_fleet(skins, key, m[k] as int));
    }
}

proof fn lemma_skin_before_asymmetric(skins: Seq<Skin>, i: int, j: int)
    ensures
        !(skin_before(skins, i, j) && skin_before(skins, j, i)),
{
    lemma_pair_lt_facts(skin_key(skins[i]), skin_key(skins[j]));
}

proof fn lemma_sorted_same_elements_equal(skins: Seq<Skin>, m1: Seq<usize>, m2: Seq<usize>)
    requires
        m1.no_duplicates(),
        m2.no_duplicates(),
        forall|a: int, b: int|
            0 <= a < b < m1.len() ==> skin_before(skins, m1[a] as int, m1[b] as int),
        forall|a: int, b: int|
            0 <= a < b < m2.len() ==> skin_before(skins, m2[a] as int, m2[b] as int),
        forall|x: usize| m1.contains(x) <==> m2.contains(x),
    ensures
        m1 == m2,
    decreases m1.len(),
{
    if m1.len() == 0 {
        if m2.len() > 0 {
            assert(m2.contains(m2[0]));
        }
        assert(m1 =~= m2);
    } else {
        assert(m1.contains(m1[0]));
        let p = choose|p: int| 0 <= p < m2.len() && m2[p] == m1[0];
        assert(m2.contains(m2[0]));
        let q = choose|q: int| 0 <= q < m1.len() && m1[q] == m2[0];
        if p > 0 {
            assert(skin_before(skins, m2[0] as int, m2[p] as int));
            if q > 0 {
                assert(skin_before(skins, m1[0] as int, m1[q] as int));
                lemma_skin_before_asymmetric(skins, m1[0] as int, m2[0] as int);
            }
        }
        assert(m1[0] == m2[0]);
        let r1 = m1.drop_first();
        let r2 = m2.drop_first();
        assert forall|x: usize| r1.contains(x) <==> r2.contains(x) by {
            if r1.contains(x) {
                let k = choose|k: int| 0 <= k < r1.len() && r1[k] == x;
                assert(m1[k + 1] == x);
                assert(x != m1[0]);
                assert(m1.contains(x));
                let c = choose|c: int| 0 <= c < m2.len() && m2[c] == x;
                assert(c != 0);
                assert(r2[c - 1] == x);
            }
            if r2.contains(x) {
                let k = choose|k: int| 0 <= k < r2.len() && r2[k] == x;
                assert(m2[k + 1] == x);
                assert(x != m2[0]);
                assert(m2.contains(x));
                let c = choose|c: int| 0 <= c < m1.len() && m1[c] == x;
                assert(c != 0);
                assert(r1[c - 1] == x);
            }
        }
        assert forall|a: int, b: int| 0 <= a < b < r1.len() implies r1[a] != r1[b] by {
            assert(m1[a + 1] != m1[b + 1]);
        }
        assert forall|a: int, b: int| 0 <= a < b < r2.len() implies r2[a] != r2[b] by {
            assert(m2[a + 1] != m2[b + 1]);
        }
        assert forall|a: int, b: int| 0 <= a < b < r1.len() implies skin_before(
            skins,
            r1[a] as int,
            r1[b] as int,
        ) by {
            assert(skin_before(skins, m1[a + 1] as int, m1[b + 1] as int));
        }
        assert forall|a: int, b: int| 0 <= a < b < r2.len() implies skin_before(
            skins,
            r2[a] as int,
            r2[b] as int,
        ) by {
            assert(skin_before(skins, m2[a + 1] as int, m2[b + 1] as int));
        }
        lemma_sorted_same_elements_equal(skins, r1, r2);
        assert(m1 =~= seq![m1[0]] + r1);
        assert(m2 =~= seq![m2[0]] + r2);
    }
}

/// A fleet's display order is fully determined by the catalogue: any two
/// listings of the same fleet are the same sequence.
pub proof fn lemma_fleet_order_unique(skins: Seq<Skin>, key: Seq<char>, m1: Seq<usize>, m2: Seq<usize>)
    requires
        fleet_listing(skins, key, m1),
        fleet_listing(skins, key, m2),
    ensures
        m1 == m2,
{
    assert forall|x: usize| m1.contains(x) <==> m2.contains(x) by {
        if m1.contains(x) {
            let k = choose|k: int| 0 <= k < m1.len() && m1[k] == x;
            assert(in_fleet(skins, key, m1[k] as int));
        }
        if m2.contains(x) {
            let k = choose|k: int| 0 <= k < m2.len() && m2[k] == x;
            assert(in_fleet(skins, key, m2[k] as int));
        }
    }
    lemma_sorted_same_elements_equal(skins, m1, m2);
}

/// The fleet sizes of the keys in `keys`, added up.
pub open spec fn total_size(skins: Seq<Skin>, keys: Seq<Seq<char>>) -> nat
    decreases keys.len(),
{
    if keys.len() == 0 {
        0
    } else {
        total_size(skins, keys.drop_last()) + fleet_size(skins, keys.last())
    }
}

/// How many entries of `keys` equal `k`.
pub open spec fn key_hits(keys: Seq<Seq<char>>, k: Seq<char>) -> nat
    decreases keys.len(),
{
    if keys.len() == 0 {
        0
    } else {
        key_hits(keys.drop_last(), k) + if keys.last() == k {
            1nat
        } else {
            0nat
        }
    }
}

proof fn lemma_total_empty(keys: Seq<Seq<char>>)
    ensures
        total_size(Seq::<Skin>::empty(), keys) == 0,
    decreases keys.len(),
{
    if keys.len() > 0 {
        lemma_total_empty(keys.drop_last());
    }
}

proof fn lemma_total_push(skins: Seq<Skin>, s: Skin, keys: Seq<Seq<char>>)
    ensures
        total_size(skins.push(s), keys) == total_size(skins, keys) + key_hits(keys, s.faction@),
    decreases keys.len(),
{
    if keys.len() > 0 {
        lemma_total_push(skins, s, keys.drop_last());
        assert(skins.push(s).drop_last() =~= skins);
    }
}

proof fn lemma_key_hits(keys: Seq<Seq<char>>, k: Seq<char>)
    requires
        keys.no_duplicates(),
    ensures
        key_hits(keys, k) == if keys.contains(k) {
            1nat
        } else {
            0nat
        },
    decreases keys.len(),
{
    if keys.len() > 0 {
        let b = keys.drop_last();
        assert forall|i: int, j: int| 0 <= i < j < b.len() implies b[i] != b[j] by {
            assert(keys[i] != keys[j]);
        }
        lemma_key_hits(b, k);
        if keys.last() == k {
            if b.contains(k) {
                let i = choose|i: int| 0 <= i < b.len() && b[i] == k;
                assert(keys[i] != keys[keys.len() - 1]);
            }
        } else {
            if keys.contains(k) {
                let i = choose|i: int| 0 <= i < keys.len() && keys[i] == k;
                assert(b[i] == k);
            }
            if b.contains(k) {
                let i = choose|i: int| 0 <= i < b.len() && b[i] == k;
                assert(keys[i] == k);
            }
        }
    }
}

/// The fleets partition the catalogue: over distinct keys that cover every
/// skin's faction, the fleet sizes (what `count` returns) add up to the
/// number of skins.
pub proof fn lemma_fleet_sizes_sum(skins: Seq<Skin>, keys: Seq<Seq<char>>)
    requires
        keys.no_duplicates(),
        forall|i: int| 0 <= i < skins.len() ==> keys.contains(#[trigger] skins[i].faction@),
    ensures
        total_size(skins, keys) == skins.len(),
    decreases skins.len(),
{
    if skins.len() == 0 {
        lemma_total_empty(keys);
        assert(skins =~= Seq::<Skin>::empty());
    } else {
        let b = skins.drop_last();
        assert forall|i: int| 0 <= i < b.len() implies keys.contains(#[trigger] b[i].faction@) by {
            assert(b[i] == skins[i]);
        }
        lemma_fleet_sizes_sum(b, keys);
        lemma_total_push(b, skins.last(), keys);
        assert(b.push(skins.last()) =~= skins);
        assert(keys.contains(skins[skins.len() - 1].faction@));
        lemma_key_hits(keys, skins.last().faction@);
    }
}

} // verus!
