//! `/turn` structured response: the paper_cards data model, the per-field
//! parsers, and the tablet-enforced clamps. The server is trusted for
//! content, never for shape — anything malformed degrades to "fewer
//! cards", not to a crash.
use vstd::prelude::*;
use vstd::string::StrSliceExecFns;

verus! {

/// At most this many cards are drawn per turn.
pub const MAX_CARDS: usize = 3;
/// A sketch with more points than this is dropped.
pub const MAX_SKETCH_POINTS: usize = 2000;
/// Default per-card text length cap, in characters.
pub const DEFAULT_MAX_TEXT_CHARS: usize = 6;
/// Ceiling on the number of copies a stamp card draws.
pub const MAX_STAMP_COUNT: u32 = 5;
/// Ceiling on the number a count card draws.
pub const MAX_COUNT_N: u32 = 20;
/// A normalized page fraction is held in millionths: this is 1.0.
pub const NORM_ONE: i64 = 1000000;

/// Where a card wants to land on the page.
#[derive(Debug, Clone, Copy, PartialEq, Eq, Structural)]
pub enum Place {
    NearNewInk,
    NearAnchor,
    BlankArea,
    Margin,
    FullPage,
}

/// A card's requested size tier.
#[derive(Debug, Clone, Copy, PartialEq, Eq, Structural)]
pub enum Size {
    S,
    M,
    L,
}

/// Animation pace of a card.
#[derive(Debug, Clone, Copy, PartialEq, Eq, Structural)]
pub enum Pace {
    Normal,
    Slow,
}

/// What the server asks the diary to do with the page after this turn.
#[derive(Debug, Clone, Copy, PartialEq, Eq, Structural)]
pub enum PageAction {
    /// Leave the page as it is (the wire value `none`).
    Keep,
    SuggestNewPage,
    NewPage,
}

/// How a count card draws its number.
#[derive(Debug, Clone, Copy, PartialEq, Eq, Structural)]
pub enum CountStyle {
    Dots,
    Tally,
    Numbers,
}

/// What a trace card's template is.
#[derive(Debug, Clone, Copy, PartialEq, Eq, Structural)]
pub enum TraceKind {
    Shape,
    Hanzi,
}

/// The guide drawn under a trace template.
#[derive(Debug, Clone, Copy, PartialEq, Eq, Structural)]
pub enum TraceGuide {
    /// No guide grid (the wire value `none`).
    Plain,
    TianGrid,
}

} // verus!

verus! {

/// Placement and animation settings every card carries. `anchor_norm` is
/// a page fraction in millionths (see [`NORM_ONE`]).
#[derive(Debug, Clone, Copy)]
pub struct CardCommon {
    pub place: Place,
    pub anchor_norm: Option<(i64, i64)>,
    pub size: Size,
    pub pace: Pace,
}

/// A normalized rectangle `(x, y, w, h)`, each a page fraction in millionths.
pub type NormRect = (i64, i64, i64, i64);

/// One paper card, strictly typed and clamped.
pub enum Card {
    Text { common: CardCommon, content: String },
    /// Strokes of normalized points (millionths), drawn aspect-fit.
    Sketch { common: CardCommon, strokes: Vec<Vec<(i64, i64)>> },
    Stamp { common: CardCommon, name: String, count: u32 },
    Count { common: CardCommon, n: u32, style: CountStyle },
    Trace { common: CardCommon, kind: TraceKind, content: String, guide: TraceGuide },
    /// `layout`: (card, rect) — the one place the server picks explicit
    /// coordinates.
    Page { layout: Vec<(Card, NormRect)> },
}

/// The mathematical content of a [`Card`].
pub ghost enum CardV {
    Text { common: CardCommon, content: Seq<char> },
    Sketch { common: CardCommon, strokes: Seq<Seq<(i64, i64)>> },
    Stamp { common: CardCommon, name: Seq<char>, count: u32 },
    Count { common: CardCommon, n: u32, style: CountStyle },
    Trace { common: CardCommon, kind: TraceKind, content: Seq<char>, guide: TraceGuide },
    Page { layout: Seq<(CardV, NormRect)> },
}

/// The point sequences of a list of strokes.
pub open spec fn strokes_view(v: Seq<Vec<(i64, i64)>>) -> Seq<Seq<(i64, i64)>> {
    v.map_values(|s: Vec<(i64, i64)>| s@)
}

impl View for Card {
    type V = CardV;

    open spec fn view(&self) -> CardV
        decreases self,
    {
        match self {
            Card::Text { common, content } => CardV::Text { common: *common, content: content@ },
            Card::Sketch { common, strokes } => CardV::Sketch { common: *common, strokes: strokes_view(strokes@) },
            Card::Stamp { common, name, count } => CardV::Stamp { common: *common, name: name@, count: *count },
            Card::Count { common, n, style } => CardV::Count { common: *common, n: *n, style: *style },
            Card::Trace { common, kind, content, guide } => CardV::Trace {
                common: *common,
                kind: *kind,
                content: content@,
                guide: *guide,
            },
            Card::Page { layout } => CardV::Page {
                layout: Seq::new(layout@.len(), |i: int| {
                    if 0 <= i < layout@.len() {
                        proof {
                            assert(decreases_to!(*layout => layout@));
                            assert(decreases_to!(layout@ => layout@[i]));
                            assert(decreases_to!(layout@[i] => layout@[i].0));
                        }
                        (layout@[i].0.view(), layout@[i].1)
                    } else {
                        (CardV::Text { common: default_common(), content: Seq::empty() }, (0i64, 0i64, 0i64, 0i64))
                    }
                }),
            },
        }
    }
}

/// The settings a card gets when the server sends none.
pub open spec fn default_common() -> CardCommon {
    CardCommon { place: Place::BlankArea, anchor_norm: None, size: Size::M, pace: Pace::Normal }
}

/// A parsed `/turn` response.
pub struct TurnResponse {
    /// Echoed back by the server for its own correlation.
    pub turn_id: String,
    pub spoken_text: String,
    pub paper_cards: Vec<Card>,
    pub page_action: PageAction,
    /// Kept for a future server-side catalog.
    pub memory_tags: Vec<String>,
}

/// One card as the JSON layer delivered it: every field optional.
/// Normalized coordinates arrive in millionths.
pub struct RawCard {
    pub card_type: Option<String>,
    pub place: Option<String>,
    pub anchor_norm: Option<(i64, i64)>,
    pub size: Option<String>,
    pub pace: Option<String>,
    pub content: Option<String>,
    pub strokes: Option<Vec<Vec<(i64, i64)>>>,
    pub name: Option<String>,
    pub count: Option<u32>,
    pub n: Option<u32>,
    pub style: Option<String>,
    pub kind: Option<String>,
    pub guide: Option<String>,
    /// Page entries; `None` for an entry that did not have the shape of one.
    pub layout: Option<Vec<Option<RawLayoutItem>>>,
}

/// One `page.layout[]` entry; `card` is `None` when it did not have the
/// shape of a card.
pub struct RawLayoutItem {
    pub card: Option<RawCard>,
    pub rect_norm: Option<NormRect>,
}

/// The whole response as the JSON layer delivered it; a `paper_cards`
/// entry is `None` when it did not have the shape of a card.
pub struct RawResponse {
    pub turn_id: Option<String>,
    pub spoken_text: Option<String>,
    pub paper_cards: Option<Vec<Option<RawCard>>>,
    pub page_action: Option<String>,
    pub memory_tags: Option<Vec<String>>,
}

/// Why a response as a whole was refused.
#[derive(Debug, Clone, Copy, PartialEq, Eq, Structural)]
pub enum CardsError {
    MissingTurnId,
    MissingPaperCards,
}

} // verus!

verus! {

/// What `str::to_lowercase` gives for a string: Unicode's full lowercase
/// mapping, a function of the characters alone (no locale is consulted).
pub uninterp spec fn lowercase(s: Seq<char>) -> Seq<char>;

/// Every character is ASCII.
pub open spec fn all_ascii(s: Seq<char>) -> bool {
    forall|i: int| 0 <= i < s.len() ==> (#[trigger] s[i]) as int <= 127
}

/// ASCII lowercasing of one character: `A`..=`Z` become `a`..=`z`, every
/// other character stays.
pub open spec fn ascii_lower_char(c: char) -> char {
    if 'A' <= c && c <= 'Z' {
        ((c as int) + 32) as char
    } else {
        c
    }
}

/// ASCII lowercasing of a string, character by character.
pub open spec fn ascii_lower(s: Seq<char>) -> Seq<char> {
    s.map_values(|c: char| ascii_lower_char(c))
}

/// Calls `str::to_lowercase`. Claimed: the result is [`lowercase`] of the
/// input, and on an all-ASCII input it is that input's ASCII lowercasing
/// (Unicode's lowercase mapping of an ASCII letter is the ASCII one, and
/// every other ASCII character maps to itself). Beyond ASCII nothing is
/// claimed about what the mapping is on given values.
#[verifier::external_body]
fn to_lower(s: &str) -> (r: String)
    ensures
        r@ == lowercase(s@),
        all_ascii(s@) ==> r@ == ascii_lower(s@),
{
    s.to_lowercase()
}

/// Character-by-character string equality.
pub fn same_text(a: &str, b: &str) -> (r: bool)
    ensures
        r == (a@ == b@),
{
    let n = a.unicode_len();
    if n != b.unicode_len() {
        return false;
    }
    let mut i: usize = 0;
    while i < n
        invariant
            n == a@.len(),
            n == b@.len(),
            i <= n,
            a@.subrange(0, i as int) == b@.subrange(0, i as int),
        decreases n - i,
    {
        if a.get_char(i) != b.get_char(i) {
            assert(a@[i as int] != b@[i as int]);
            return false;
        }
        assert(a@.subrange(0, i + 1) =~= a@.subrange(0, i as int).push(a@[i as int]));
        assert(b@.subrange(0, i + 1) =~= b@.subrange(0, i as int).push(b@[i as int]));
        i = i + 1;
    }
    assert(a@ =~= a@.subrange(0, n as int));
    assert(b@ =~= b@.subrange(0, n as int));
    true
}

/// The optional string's characters.
pub open spec fn opt_chars(o: Option<String>) -> Option<Seq<char>> {
    match o {
        Some(s) => Some(s@),
        None => None,
    }
}

/// The place a lowercased wire word names; anything else is `BlankArea`.
pub open spec fn place_named(v: Seq<char>) -> Place {
    if v == "near_new_ink"@ {
        Place::NearNewInk
    } else if v == "near_anchor"@ {
        Place::NearAnchor
    } else if v == "blank_area"@ {
        Place::BlankArea
    } else if v == "margin"@ {
        Place::Margin
    } else if v == "full_page"@ {
        Place::FullPage
    } else {
        Place::BlankArea
    }
}

/// The size a lowercased wire word names; anything else is `M`.
pub open spec fn size_named(v: Seq<char>) -> Size {
    if v == "s"@ {
        Size::S
    } else if v == "m"@ {
        Size::M
    } else if v == "l"@ {
        Size::L
    } else {
        Size::M
    }
}

/// The pace a lowercased wire word names; anything else is `Normal`.
pub open spec fn pace_named(v: Seq<char>) -> Pace {
    if v == "normal"@ {
        Pace::Normal
    } else if v == "slow"@ {
        Pace::Slow
    } else {
        Pace::Normal
    }
}

/// The page action a lowercased wire word names; anything else is `Keep`.
pub open spec fn page_action_named(v: Seq<char>) -> PageAction {
    if v == "none"@ {
        PageAction::Keep
    } else if v == "suggest_new_page"@ {
        PageAction::SuggestNewPage
    } else if v == "new_page"@ {
        PageAction::NewPage
    } else {
        PageAction::Keep
    }
}

/// The count style a lowercased wire word names; anything else is `Dots`.
pub open spec fn count_style_named(v: Seq<char>) -> CountStyle {
    if v == "dots"@ {
        CountStyle::Dots
    } else if v == "tally"@ {
        CountStyle::Tally
    } else if v == "numbers"@ {
        CountStyle::Numbers
    } else {
        CountStyle::Dots
    }
}

/// The trace kind a lowercased wire word names; anything else is `Shape`.
pub open spec fn trace_kind_named(v: Seq<char>) -> TraceKind {
    if v == "shape"@ {
        TraceKind::Shape
    } else if v == "hanzi"@ {
        TraceKind::Hanzi
    } else {
        TraceKind::Shape
    }
}

/// The trace guide a lowercased wire word names; anything else is `Plain`.
pub open spec fn trace_guide_named(v: Seq<char>) -> TraceGuide {
    if v == "none"@ {
        TraceGuide::Plain
    } else if v == "tian_grid"@ {
        TraceGuide::TianGrid
    } else {
        TraceGuide::Plain
    }
}

pub open spec fn place_of(s: Option<Seq<char>>) -> Place {
    match s {
        None => Place::BlankArea,
        Some(v) => place_named(lowercase(v)),
    }
}

pub open spec fn size_of(s: Option<Seq<char>>) -> Size {
    match s {
        None => Size::M,
        Some(v) => size_named(lowercase(v)),
    }
}

pub open spec fn pace_of(s: Option<Seq<char>>) -> Pace {
    match s {
        None => Pace::Normal,
        Some(v) => pace_named(lowercase(v)),
    }
}

pub open spec fn page_action_of(s: Option<Seq<char>>) -> PageAction {
    match s {
        None => PageAction::Keep,
        Some(v) => page_action_named(lowercase(v)),
    }
}

pub open spec fn count_style_of(s: Option<Seq<char>>) -> CountStyle {
    match s {
        None => CountStyle::Dots,
        Some(v) => count_style_named(lowercase(v)),
    }
}

pub open spec fn trace_kind_of(s: Option<Seq<char>>) -> TraceKind {
    match s {
        None => TraceKind::Shape,
        Some(v) => trace_kind_named(lowercase(v)),
    }
}

pub open spec fn trace_guide_of(s: Option<Seq<char>>) -> TraceGuide {
    match s {
        None => TraceGuide::Plain,
        Some(v) => trace_guide_named(lowercase(v)),
    }
}

/// The place named by an already lowercased wire word.
pub fn place_from_lowercase(v: &str) -> (p: Place)
    ensures
        p == place_named(v@),
{
    if same_text(v, "near_new_ink") {
        Place::NearNewInk
    } else if same_text(v, "near_anchor") {
        Place::NearAnchor
    } else if same_text(v, "blank_area") {
        Place::BlankArea
    } else if same_text(v, "margin") {
        Place::Margin
    } else if same_text(v, "full_page") {
        Place::FullPage
    } else {
        Place::BlankArea
    }
}

/// The size named by an already lowercased wire word.
pub fn size_from_lowercase(v: &str) -> (p: Size)
    ensures
        p == size_named(v@),
{
    if same_text(v, "s") {
        Size::S
    } else if same_text(v, "m") {
        Size::M
    } else if same_text(v, "l") {
        Size::L
    } else {
        Size::M
    }
}

/// The pace named by an already lowercased wire word.
pub fn pace_from_lowercase(v: &str) -> (p: Pace)
    ensures
        p == pace_named(v@),
{
    if same_text(v, "normal") {
        Pace::Normal
    } else if same_text(v, "slow") {
        Pace::Slow
    } else {
        Pace::Normal
    }
}

/// The page action named by an already lowercased wire word.
pub fn page_action_from_lowercase(v: &str) -> (p: PageAction)
    ensures
        p == page_action_named(v@),
{
    if same_text(v, "none") {
        PageAction::Keep
    } else if same_text(v, "suggest_new_page") {
        PageAction::SuggestNewPage
    } else if same_text(v, "new_page") {
        PageAction::NewPage
    } else {
        PageAction::Keep
    }
}

/// The count style named by an already lowercased wire word.
pub fn count_style_from_lowercase(v: &str) -> (p: CountStyle)
    ensures
        p == count_style_named(v@),
{
    if same_text(v, "dots") {
        CountStyle::Dots
    } else if same_text(v, "tally") {
        CountStyle::Tally
    } else if same_text(v, "numbers") {
        CountStyle::Numbers
    } else {
        CountStyle::Dots
    }
}

/// The trace kind named by an already lowercased wire word.
pub fn trace_kind_from_lowercase(v: &str) -> (p: TraceKind)
    ensures
        p == trace_kind_named(v@),
{
    if same_text(v, "shape") {
        TraceKind::Shape
    } else if same_text(v, "hanzi") {
        TraceKind::Hanzi
    } else {
        TraceKind::Shape
    }
}

/// The trace guide named by an already lowercased wire word.
pub fn trace_guide_from_lowercase(v: &str) -> (p: TraceGuide)
    ensures
        p == trace_guide_named(v@),
{
    if same_text(v, "none") {
        TraceGuide::Plain
    } else if same_text(v, "tian_grid") {
        TraceGuide::TianGrid
    } else {
        TraceGuide::Plain
    }
}

pub fn parse_place(s: &Option<String>) -> (p: Place)
    ensures
        p == place_of(opt_chars(*s)),
        match *s {
            Some(v) => all_ascii(v@) ==> p == place_named(ascii_lower(v@)),
            None => true,
        },
{
    match s {
        None => Place::BlankArea,
        Some(v) => place_from_lowercase(to_lower(v.as_str()).as_str()),
    }
}

pub fn parse_size(s: &Option<String>) -> (p: Size)
    ensures
        p == size_of(opt_chars(*s)),
        match *s {
            Some(v) => all_ascii(v@) ==> p == size_named(ascii_lower(v@)),
            None => true,
        },
{
    match s {
        None => Size::M,
        Some(v) => size_from_lowercase(to_lower(v.as_str()).as_str()),
    }
}

pub fn parse_pace(s: &Option<String>) -> (p: Pace)
    ensures
        p == pace_of(opt_chars(*s)),
        match *s {
            Some(v) => all_ascii(v@) ==> p == pace_named(ascii_lower(v@)),
            None => true,
        },
{
    match s {
        None => Pace::Normal,
        Some(v) => pace_from_lowercase(to_lower(v.as_str()).as_str()),
    }
}

pub fn parse_page_action(s: &Option<String>) -> (p: PageAction)
    ensures
        p == page_action_of(opt_chars(*s)),
        match *s {
            Some(v) => all_ascii(v@) ==> p == page_action_named(ascii_lower(v@)),
            None => true,
        },
{
    match s {
        None => PageAction::Keep,
        Some(v) => page_action_from_lowercase(to_lower(v.as_str()).as_str()),
    }
}

pub fn parse_count_style(s: &Option<String>) -> (p: CountStyle)
    ensures
        p == count_style_of(opt_chars(*s)),
        match *s {
            Some(v) => all_ascii(v@) ==> p == count_style_named(ascii_lower(v@)),
            None => true,
        },
{
    match s {
        None => CountStyle::Dots,
        Some(v) => count_style_from_lowercase(to_lower(v.as_str()).as_str()),
    }
}

pub fn parse_trace_kind(s: &Option<String>) -> (p: TraceKind)
    ensures
        p == trace_kind_of(opt_chars(*s)),
        match *s {
            Some(v) => all_ascii(v@) ==> p == trace_kind_named(ascii_lower(v@)),
            None => true,
        },
{
    match s {
        None => TraceKind::Shape,
        Some(v) => trace_kind_from_lowercase(to_lower(v.as_str()).as_str()),
    }
}

pub fn parse_trace_guide(s: &Option<String>) -> (p: TraceGuide)
    ensures
        p == trace_guide_of(opt_chars(*s)),
        match *s {
            Some(v) => all_ascii(v@) ==> p == trace_guide_named(ascii_lower(v@)),
            None => true,
        },
{
    match s {
        None => TraceGuide::Plain,
        Some(v) => trace_guide_from_lowercase(to_lower(v.as_str()).as_str()),
    }
}

} // verus!

verus! {

/// A server-supplied normalized coordinate, clamped into the page.
pub open spec fn clamp_norm_spec(v: i64) -> i64 {
    if v < 0 { 0 } else if v > NORM_ONE { NORM_ONE } else { v }
}

/// Clamp a normalized coordinate (millionths) into `0..=NORM_ONE`: every
/// fraction handed to the pixel math must be a sane fraction of the page.
pub fn clamp_norm(v: i64) -> (r: i64)
    ensures
        r == clamp_norm_spec(v),
{
    if v < 0 { 0 } else if v > NORM_ONE { NORM_ONE } else { v }
}

/// `v` clamped into `lo..=hi`.
pub open spec fn clamp_u32(v: u32, lo: u32, hi: u32) -> u32 {
    if v < lo { lo } else if v > hi { hi } else { v }
}

/// The first `max` characters of `s` (all of it when shorter).
pub open spec fn truncated(s: Seq<char>, max: int) -> Seq<char> {
    if s.len() <= max { s } else { s.take(max) }
}

/// Truncate by character count, not bytes — a multi-byte Chinese string
/// must not be cut mid-character.
pub fn truncate_chars(s: &str, max: usize) -> (r: String)
    ensures
        r@ == truncated(s@, max as int),
{
    let n = s.unicode_len();
    let k = if n <= max { n } else { max };
    let t = s.substring_char(0, k);
    let r = t.to_owned();
    assert(r@ =~= truncated(s@, max as int));
    r
}

/// The wire names of the built-in stamps.
pub open spec fn stamp_names() -> Seq<Seq<char>> {
    seq!["star"@, "flower"@, "heart"@, "smiley"@, "check"@, "sun"@, "moon"@, "balloon"@]
}

/// `name` is one of the built-in stamps.
pub fn is_stamp_name(name: &str) -> (r: bool)
    ensures
        r == stamp_names().contains(name@),
{
    let ghost names = stamp_names();
    let r = same_text(name, "star") || same_text(name, "flower") || same_text(name, "heart")
        || same_text(name, "smiley") || same_text(name, "check") || same_text(name, "sun")
        || same_text(name, "moon") || same_text(name, "balloon");
    proof {
        if r {
            if name@ == "star"@ { assert(names[0] == name@); }
            if name@ == "flower"@ { assert(names[1] == name@); }
            if name@ == "heart"@ { assert(names[2] == name@); }
            if name@ == "smiley"@ { assert(names[3] == name@); }
            if name@ == "check"@ { assert(names[4] == name@); }
            if name@ == "sun"@ { assert(names[5] == name@); }
            if name@ == "moon"@ { assert(names[6] == name@); }
            if name@ == "balloon"@ { assert(names[7] == name@); }
        } else {
            assert(!names.contains(name@)) by {
                if names.contains(name@) {
                    let i = choose|i: int| 0 <= i < names.len() && names[i] == name@;
                    assert(0 <= i < 8);
                }
            }
        }
    }
    r
}

/// The placement settings a raw card carries, defaulted and clamped.
pub open spec fn common_of(raw: &RawCard) -> CardCommon {
    CardCommon {
        place: place_of(opt_chars(raw.place)),
        anchor_norm: match raw.anchor_norm {
            Some((x, y)) => Some((clamp_norm_spec(x), clamp_norm_spec(y))),
            None => None,
        },
        size: size_of(opt_chars(raw.size)),
        pace: pace_of(opt_chars(raw.pace)),
    }
}

fn raw_common(raw: &RawCard) -> (c: CardCommon)
    ensures
        c == common_of(raw),
{
    CardCommon {
        place: parse_place(&raw.place),
        anchor_norm: match raw.anchor_norm {
            Some((x, y)) => Some((clamp_norm(x), clamp_norm(y))),
            None => None,
        },
        size: parse_size(&raw.size),
        pace: parse_pace(&raw.pace),
    }
}

/// Total number of points over all strokes.
pub open spec fn total_points(strokes: Seq<Seq<(i64, i64)>>) -> int
    decreases strokes.len(),
{
    if strokes.len() == 0 { 0 } else { total_points(strokes.drop_last()) + strokes.last().len() }
}

/// The lowercased card type (empty when the server sent none).
pub open spec fn card_type_of(raw: &RawCard) -> Seq<char> {
    match raw.card_type {
        Some(t) => lowercase(t@),
        None => Seq::empty(),
    }
}

/// A card of (lowercased) type `t` converted with its clamps; `None` when
/// it is dropped. A page card becomes `page`.
pub open spec fn converted_body(raw: RawCard, t: Seq<char>, max_text_chars: int, page: Option<CardV>) -> Option<CardV> {
    let common = common_of(&raw);
    if t == "text"@ {
        match raw.content {
            Some(c) => Some(CardV::Text { common, content: truncated(c@, max_text_chars) }),
            None => None,
        }
    } else if t == "sketch"@ {
        match raw.strokes {
            Some(st) => if total_points(strokes_view(st@)) > MAX_SKETCH_POINTS {
                None
            } else {
                Some(CardV::Sketch { common, strokes: strokes_view(st@) })
            },
            None => None,
        }
    } else if t == "stamp"@ {
        match raw.name {
            Some(name) => if stamp_names().contains(name@) {
                Some(CardV::Stamp {
                    common,
                    name: name@,
                    count: clamp_u32(
                        match raw.count { Some(c) => c, None => 1 },
                        1,
                        MAX_STAMP_COUNT,
                    ),
                })
            } else {
                None
            },
            None => None,
        }
    } else if t == "count"@ {
        match raw.n {
            Some(n) => Some(CardV::Count {
                common,
                n: clamp_u32(n, 1, MAX_COUNT_N),
                style: count_style_of(opt_chars(raw.style)),
            }),
            None => None,
        }
    } else if t == "trace"@ {
        match raw.content {
            Some(c) => Some(CardV::Trace {
                common,
                kind: trace_kind_of(opt_chars(raw.kind)),
                content: c@,
                guide: trace_guide_of(opt_chars(raw.guide)),
            }),
            None => None,
        }
    } else if t == "page"@ {
        page
    } else {
        None
    }
}

/// A card of (lowercased) type `t` converted with its clamps; `None` when
/// it is dropped. A page card is refused where `nested` (inside a page's
/// layout), so nesting is at most one level deep.
pub open spec fn converted_as(raw: RawCard, t: Seq<char>, max_text_chars: int, nested: bool) -> Option<CardV> {
    converted_body(raw, t, max_text_chars, if nested { None } else { page_of(raw.layout, max_text_chars) })
}

/// A page card with the surviving entries of its layout.
pub open spec fn page_of(layout: Option<Vec<Option<RawLayoutItem>>>, max_text_chars: int) -> Option<CardV> {
    match layout {
        Some(items) => Some(CardV::Page { layout: layout_of(items@, max_text_chars) }),
        None => None,
    }
}

/// A page layout entry: kept only with a rect and a convertible card, the
/// rect clamped into the page.
pub open spec fn layout_item_of(item: Option<RawLayoutItem>, max_text_chars: int) -> Option<(CardV, NormRect)> {
    match item {
        Some(it) => match it.rect_norm {
            Some((x, y, w, h)) => match it.card {
                Some(c) => match converted_body(c, card_type_of(&c), max_text_chars, None) {
                    Some(cv) => Some(
                        (cv, (clamp_norm_spec(x), clamp_norm_spec(y), clamp_norm_spec(w), clamp_norm_spec(h))),
                    ),
                    None => None,
                },
                None => None,
            },
            None => None,
        },
        None => None,
    }
}

/// The entries of a page layout that survive, in order.
pub open spec fn layout_of(items: Seq<Option<RawLayoutItem>>, max_text_chars: int) -> Seq<(CardV, NormRect)>
    decreases items.len(),
{
    if items.len() == 0 {
        Seq::empty()
    } else {
        let prev = layout_of(items.drop_last(), max_text_chars);
        match layout_item_of(items.last(), max_text_chars) {
            Some(e) => prev.push(e),
            None => prev,
        }
    }
}

/// A card converted with its clamps; `None` when it is dropped.
pub open spec fn converted(raw: RawCard, max_text_chars: int, nested: bool) -> Option<CardV> {
    converted_as(raw, card_type_of(&raw), max_text_chars, nested)
}

/// The view of an optional card.
pub open spec fn opt_card_view(c: Option<Card>) -> Option<CardV> {
    match c {
        Some(card) => Some(card@),
        None => None,
    }
}

} // verus!

verus! {

/// The views of a page layout.
pub open spec fn layout_view(v: Seq<(Card, NormRect)>) -> Seq<(CardV, NormRect)> {
    Seq::new(v.len(), |i: int| (v[i].0@, v[i].1))
}

proof fn lemma_page_view(layout: Vec<(Card, NormRect)>)
    ensures
        (Card::Page { layout })@ == (CardV::Page { layout: layout_view(layout@) }),
{
    let c = Card::Page { layout };
    reveal_with_fuel(<Card as View>::view, 2);
    assert(c@ is Page);
    let l2 = c@->Page_layout;
    assert(l2.len() == layout@.len());
    assert forall|i: int| 0 <= i < l2.len() implies l2[i] == layout_view(layout@)[i] by {
        assert(l2[i] == (layout@[i].0.view(), layout@[i].1));
    }
    assert(l2 =~= layout_view(layout@));
}

proof fn lemma_total_prefix(s: Seq<Seq<(i64, i64)>>, i: int)
    requires
        0 <= i <= s.len(),
    ensures
        total_points(s.take(i)) <= total_points(s),
    decreases s.len(),
{
    if i < s.len() {
        assert(s.drop_last().take(i) =~= s.take(i));
        lemma_total_prefix(s.drop_last(), i);
    } else {
        assert(s.take(i) =~= s);
    }
}

/// More points than a sketch may carry.
fn too_many_points(strokes: &Vec<Vec<(i64, i64)>>) -> (r: bool)
    ensures
        r == (total_points(strokes_view(strokes@)) > MAX_SKETCH_POINTS),
{
    let ghost sv = strokes_view(strokes@);
    let mut total: usize = 0;
    let mut i: usize = 0;
    while i < strokes.len()
        invariant
            sv == strokes_view(strokes@),
            i <= strokes@.len(),
            total == total_points(sv.take(i as int)),
            total <= MAX_SKETCH_POINTS,
        decreases strokes@.len() - i,
    {
        assert(sv.take(i + 1).drop_last() =~= sv.take(i as int));
        let len = strokes[i].len();
        if len > MAX_SKETCH_POINTS - total {
            proof {
                lemma_total_prefix(sv, i + 1);
            }
            return true;
        }
        total = total + len;
        i = i + 1;
    }
    assert(sv.take(i as int) =~= sv);
    false
}

/// Convert a card whose lowercased type is `card_type`, applying the
/// per-card clamps; `None` when the card is dropped.
pub fn convert_typed(raw: RawCard, card_type: &str, max_text_chars: usize, nested: bool) -> (r: Option<Card>)
    ensures
        opt_card_view(r) == converted_as(raw, card_type@, max_text_chars as int, nested),
    decreases (if nested { 0int } else { 1int }), 3int,
{
    let common = raw_common(&raw);
    let ghost t = card_type@;
    if same_text(card_type, "text") {
        match &raw.content {
            Some(c) => Some(Card::Text { common, content: truncate_chars(c.as_str(), max_text_chars) }),
            None => None,
        }
    } else if same_text(card_type, "sketch") {
        match raw.strokes {
            Some(strokes) => {
                if too_many_points(&strokes) {
                    None
                } else {
                    Some(Card::Sketch { common, strokes })
                }
            },
            None => None,
        }
    } else if same_text(card_type, "stamp") {
        let count = match raw.count {
            Some(c) => c,
            None => 1,
        };
        let count = if count < 1 { 1 } else if count > MAX_STAMP_COUNT { MAX_STAMP_COUNT } else { count };
        match raw.name {
            Some(name) => {
                if is_stamp_name(name.as_str()) {
                    Some(Card::Stamp { common, name, count })
                } else {
                    None
                }
            },
            None => None,
        }
    } else if same_text(card_type, "count") {
        match raw.n {
            Some(n) => {
                let n = if n < 1 { 1 } else if n > MAX_COUNT_N { MAX_COUNT_N } else { n };
                Some(Card::Count { common, n, style: parse_count_style(&raw.style) })
            },
            None => None,
        }
    } else if same_text(card_type, "trace") {
        let kind = parse_trace_kind(&raw.kind);
        let guide = parse_trace_guide(&raw.guide);
        match raw.content {
            Some(content) => Some(Card::Trace { common, kind, content, guide }),
            None => None,
        }
    } else if same_text(card_type, "page") {
        if nested {
            None
        } else {
            match raw.layout {
                Some(items) => {
                    let layout = convert_layout(items, max_text_chars);
                    proof {
                        lemma_page_view(layout);
                    }
                    Some(Card::Page { layout })
                },
                None => None,
            }
        }
    } else {
        None
    }
}

/// Convert one loosely-typed card, applying the per-card clamps. `None`
/// means the card was dropped (missing field, unknown stamp name, oversize
/// sketch, unknown type); `nested` refuses a page card inside a page.
pub fn convert_card(raw: RawCard, max_text_chars: usize, nested: bool) -> (r: Option<Card>)
    ensures
        opt_card_view(r) == converted(raw, max_text_chars as int, nested),
    decreases (if nested { 0int } else { 1int }), 4int,
{
    let t = match &raw.card_type {
        Some(t) => to_lower(t.as_str()),
        None => String::new(),
    };
    convert_typed(raw, t.as_str(), max_text_chars, nested)
}

/// One page layout entry: `None` drops just this entry.
fn convert_layout_item(item: Option<RawLayoutItem>, max_text_chars: usize) -> (r: Option<(Card, NormRect)>)
    ensures
        match r {
            Some(e) => layout_item_of(item, max_text_chars as int) == Some((e.0@, e.1)),
            None => layout_item_of(item, max_text_chars as int) is None,
        },
    decreases 1int, 1int,
{
    match item {
        Some(it) => match it.rect_norm {
            Some((x, y, w, h)) => {
                let rect = (clamp_norm(x), clamp_norm(y), clamp_norm(w), clamp_norm(h));
                match it.card {
                    Some(c) => match convert_card(c, max_text_chars, true) {
                        Some(card) => Some((card, rect)),
                        None => None,
                    },
                    None => None,
                }
            },
            None => None,
        },
        None => None,
    }
}

/// The entries of a page layout that survive conversion, in order.
fn convert_layout(items: Vec<Option<RawLayoutItem>>, max_text_chars: usize) -> (r: Vec<(Card, NormRect)>)
    ensures
        layout_view(r@) == layout_of(items@, max_text_chars as int),
    decreases 1int, 2int,
{
    let ghost all = items@;
    let mut items = items;
    let mut out: Vec<(Card, NormRect)> = Vec::new();
    let ghost mut k: int = 0;
    while items.len() > 0
        invariant
            0 <= k <= all.len(),
            items@ == all.skip(k),
            layout_view(out@) == layout_of(all.take(k), max_text_chars as int),
        decreases items@.len(),
    {
        let it = items.remove(0);
        let ghost before = out@;
        proof {
            assert(it == all[k]);
            assert(all.take(k + 1).drop_last() =~= all.take(k));
            assert(all.take(k + 1).last() == all[k]);
        }
        match convert_layout_item(it, max_text_chars) {
            Some(e) => {
                out.push(e);
                assert(layout_view(out@) =~= layout_view(before).push((e.0@, e.1)));
            },
            None => {},
        }
        proof {
            k = k + 1;
            assert(items@ =~= all.skip(k));
        }
    }
    assert(all.take(k) =~= all);
    out
}

} // verus!

verus! {

/// The top-level cards that survive conversion, in order.
pub open spec fn cards_of(list: Seq<Option<RawCard>>, max_text_chars: int) -> Seq<CardV>
    decreases list.len(),
{
    if list.len() == 0 {
        Seq::empty()
    } else {
        let prev = cards_of(list.drop_last(), max_text_chars);
        match list.last() {
            Some(raw) => match converted(raw, max_text_chars, false) {
                Some(c) => prev.push(c),
                None => prev,
            },
            None => prev,
        }
    }
}

/// Index of the first page card, if any.
pub open spec fn first_page_index(cs: Seq<CardV>) -> Option<int>
    decreases cs.len(),
{
    if cs.len() == 0 {
        None
    } else {
        match first_page_index(cs.drop_last()) {
            Some(i) => Some(i),
            None => if cs.last() is Page { Some(cs.len() - 1) } else { None },
        }
    }
}

/// The cards drawn this turn: a page card stands alone (the first one, if
/// several); otherwise at most [`MAX_CARDS`], the rest dropped.
pub open spec fn selected(cs: Seq<CardV>) -> Seq<CardV> {
    match first_page_index(cs) {
        Some(i) => seq![cs[i]],
        None => if cs.len() > MAX_CARDS { cs.take(MAX_CARDS as int) } else { cs },
    }
}

/// The views of a list of cards.
pub open spec fn cards_view(v: Seq<Card>) -> Seq<CardV> {
    v.map_values(|c: Card| c@)
}

/// The characters of each string.
pub open spec fn strings_view(v: Seq<String>) -> Seq<Seq<char>> {
    v.map_values(|s: String| s@)
}

proof fn lemma_first_page_index(cs: Seq<CardV>)
    ensures
        match first_page_index(cs) {
            Some(i) => 0 <= i < cs.len() && cs[i] is Page && forall|j: int| 0 <= j < i ==> !(#[trigger] cs[j] is Page),
            None => forall|j: int| 0 <= j < cs.len() ==> !(#[trigger] cs[j] is Page),
        },
    decreases cs.len(),
{
    if cs.len() > 0 {
        lemma_first_page_index(cs.drop_last());
        match first_page_index(cs.drop_last()) {
            Some(i) => {
                assert forall|j: int| 0 <= j < i implies !(#[trigger] cs[j] is Page) by {
                    assert(cs[j] == cs.drop_last()[j]);
                }
            },
            None => {
                assert forall|j: int| 0 <= j < cs.len() - 1 implies !(#[trigger] cs[j] is Page) by {
                    assert(cs[j] == cs.drop_last()[j]);
                }
            },
        }
    }
}

/// Convert every top-level card, in order, dropping the ones that fail.
fn convert_cards(list: Vec<Option<RawCard>>, max_text_chars: usize) -> (r: Vec<Card>)
    ensures
        cards_view(r@) == cards_of(list@, max_text_chars as int),
{
    let ghost all = list@;
    let mut list = list;
    let mut out: Vec<Card> = Vec::new();
    let ghost mut k: int = 0;
    while list.len() > 0
        invariant
            0 <= k <= all.len(),
            list@ == all.skip(k),
            cards_view(out@) == cards_of(all.take(k), max_text_chars as int),
        decreases list@.len(),
    {
        let item = list.remove(0);
        let ghost before = out@;
        proof {
            assert(item == all[k]);
            assert(all.take(k + 1).drop_last() =~= all.take(k));
            assert(all.take(k + 1).last() == all[k]);
        }
        match item {
            Some(raw) => match convert_card(raw, max_text_chars, false) {
                Some(c) => {
                    out.push(c);
                    assert(cards_view(out@) =~= cards_view(before).push(c@));
                },
                None => {},
            },
            None => {},
        }
        proof {
            k = k + 1;
            assert(list@ =~= all.skip(k));
        }
    }
    assert(all.take(k) =~= all);
    out
}

/// Keep a lone page card (the first), or else at most [`MAX_CARDS`].
fn select_cards(cards: Vec<Card>) -> (r: Vec<Card>)
    ensures
        cards_view(r@) == selected(cards_view(cards@)),
{
    let ghost cv = cards_view(cards@);
    proof {
        lemma_first_page_index(cv);
    }
    let mut i: usize = 0;
    while i < cards.len()
        invariant
            cv == cards_view(cards@),
            i <= cards@.len(),
            forall|j: int| 0 <= j < i ==> !(#[trigger] cv[j] is Page),
        decreases cards@.len() - i,
    {
        if let Card::Page { .. } = &cards[i] {
            let mut cards = cards;
            let page = cards.remove(i);
            proof {
                lemma_first_page_index(cv);
                assert(cv[i as int] is Page);
                match first_page_index(cv) {
                    Some(f) => {
                        assert(f == i);
                    },
                    None => {
                        assert(!(cv[i as int] is Page));
                    },
                }
            }
            let mut out: Vec<Card> = Vec::new();
            out.push(page);
            assert(cards_view(out@) =~= seq![cv[i as int]]);
            return out;
        }
        proof {
            assert(!(cv[i as int] is Page));
        }
        i = i + 1;
    }
    proof {
        lemma_first_page_index(cv);
        match first_page_index(cv) {
            Some(f) => {
                assert(!(cv[f] is Page));
            },
            None => {},
        }
    }
    let mut cards = cards;
    if cards.len() > MAX_CARDS {
        cards.truncate(MAX_CARDS);
        assert(cards_view(cards@) =~= cv.take(MAX_CARDS as int));
    }
    cards
}

/// Assemble a `/turn` response from what the JSON layer delivered. A
/// missing `turn_id` or `paper_cards` refuses the whole response;
/// everything below that degrades: bad cards are dropped, not fatal.
pub fn turn_response_from_raw(raw: RawResponse, max_text_chars: usize) -> (r: Result<TurnResponse, CardsError>)
    ensures
        raw.turn_id is None ==> r == Err::<TurnResponse, CardsError>(CardsError::MissingTurnId),
        raw.turn_id is Some && raw.paper_cards is None
            ==> r == Err::<TurnResponse, CardsError>(CardsError::MissingPaperCards),
        raw.turn_id is Some && raw.paper_cards is Some ==> match r {
            Ok(t) => {
                &&& t.turn_id@ == raw.turn_id.unwrap()@
                &&& t.spoken_text@ == match raw.spoken_text {
                    Some(s) => s@,
                    None => Seq::<char>::empty(),
                }
                &&& cards_view(t.paper_cards@) == selected(
                    cards_of(raw.paper_cards.unwrap()@, max_text_chars as int),
                )
                &&& t.page_action == page_action_of(opt_chars(raw.page_action))
                &&& strings_view(t.memory_tags@) == match raw.memory_tags {
                    Some(m) => strings_view(m@),
                    None => Seq::<Seq<char>>::empty(),
                }
            },
            Err(_) => false,
        },
{
    let page_action = parse_page_action(&raw.page_action);
    let turn_id = match raw.turn_id {
        Some(t) => t,
        None => {
            return Err(CardsError::MissingTurnId);
        },
    };
    let list = match raw.paper_cards {
        Some(l) => l,
        None => {
            return Err(CardsError::MissingPaperCards);
        },
    };
    let cards = select_cards(convert_cards(list, max_text_chars));
    let spoken_text = match raw.spoken_text {
        Some(s) => s,
        None => String::new(),
    };
    let memory_tags = match raw.memory_tags {
        Some(m) => m,
        None => {
            let e: Vec<String> = Vec::new();
            assert(strings_view(e@) =~= Seq::<Seq<char>>::empty());
            e
        },
    };
    Ok(TurnResponse { turn_id, spoken_text, paper_cards: cards, page_action, memory_tags })
}

} // verus!

verus! {

/// The anchor (if any) lies in the page.
pub open spec fn common_clamped(c: CardCommon) -> bool {
    match c.anchor_norm {
        Some((x, y)) => 0 <= x <= NORM_ONE && 0 <= y <= NORM_ONE,
        None => true,
    }
}

/// A card that may stand in a page's layout honours every per-card clamp.
pub open spec fn leaf_clamped(cv: CardV, max_text_chars: int) -> bool {
    match cv {
        CardV::Text { common, content } => common_clamped(common) && content.len() <= max_text_chars,
        CardV::Sketch { common, strokes } => common_clamped(common) && total_points(strokes) <= MAX_SKETCH_POINTS,
        CardV::Stamp { common, name, count } => common_clamped(common) && 1 <= count <= MAX_STAMP_COUNT
            && stamp_names().contains(name),
        CardV::Count { common, n, .. } => common_clamped(common) && 1 <= n <= MAX_COUNT_N,
        CardV::Trace { common, .. } => common_clamped(common),
        CardV::Page { .. } => false,
    }
}

/// A card honours every clamp; a page's entries are clamped cards that are
/// not pages, each with a rect in the page.
pub open spec fn card_clamped(cv: CardV, max_text_chars: int) -> bool {
    match cv {
        CardV::Page { layout } => forall|i: int| 0 <= i < layout.len() ==> {
            let (c, r) = #[trigger] layout[i];
            &&& leaf_clamped(c, max_text_chars)
            &&& 0 <= r.0 <= NORM_ONE && 0 <= r.1 <= NORM_ONE && 0 <= r.2 <= NORM_ONE && 0 <= r.3 <= NORM_ONE
        },
        _ => leaf_clamped(cv, max_text_chars),
    }
}

proof fn lemma_body_clamped(raw: RawCard, t: Seq<char>, max_text_chars: int)
    requires
        max_text_chars >= 0,
    ensures
        converted_body(raw, t, max_text_chars, None) matches Some(cv) ==> leaf_clamped(cv, max_text_chars),
{
}

proof fn lemma_layout_clamped(items: Seq<Option<RawLayoutItem>>, max_text_chars: int)
    requires
        max_text_chars >= 0,
    ensures
        card_clamped(CardV::Page { layout: layout_of(items, max_text_chars) }, max_text_chars),
    decreases items.len(),
{
    if items.len() > 0 {
        lemma_layout_clamped(items.drop_last(), max_text_chars);
        let prev = layout_of(items.drop_last(), max_text_chars);
        let cur = layout_of(items, max_text_chars);
        match items.last() {
            Some(it) => match it.card {
                Some(c) => lemma_body_clamped(c, card_type_of(&c), max_text_chars),
                None => {},
            },
            None => {},
        }
        assert forall|i: int| 0 <= i < cur.len() implies {
            let (c, r) = #[trigger] cur[i];
            &&& leaf_clamped(c, max_text_chars)
            &&& 0 <= r.0 <= NORM_ONE && 0 <= r.1 <= NORM_ONE && 0 <= r.2 <= NORM_ONE && 0 <= r.3 <= NORM_ONE
        } by {
            if i < prev.len() {
                assert(cur[i] == prev[i]);
            }
        }
    }
}

proof fn lemma_cards_clamped(list: Seq<Option<RawCard>>, max_text_chars: int)
    requires
        max_text_chars >= 0,
    ensures
        forall|i: int| 0 <= i < cards_of(list, max_text_chars).len() ==> card_clamped(
            #[trigger] cards_of(list, max_text_chars)[i],
            max_text_chars,
        ),
    decreases list.len(),
{
    if list.len() > 0 {
        lemma_cards_clamped(list.drop_last(), max_text_chars);
        let prev = cards_of(list.drop_last(), max_text_chars);
        let cur = cards_of(list, max_text_chars);
        match list.last() {
            Some(raw) => {
                let t = card_type_of(&raw);
                lemma_body_clamped(raw, t, max_text_chars);
                match raw.layout {
                    Some(items) => lemma_layout_clamped(items@, max_text_chars),
                    None => {},
                }
            },
            None => {},
        }
        assert forall|i: int| 0 <= i < cur.len() implies card_clamped(#[trigger] cur[i], max_text_chars) by {
            if i < prev.len() {
                assert(cur[i] == prev[i]);
            }
        }
    }
}

/// Law: whatever the server sends, the cards of a turn honour the tablet's
/// rules — at most three of them, a page card only ever alone, and every
/// card within its clamps (stamp copies 1 to 5 of a known stamp, counts 1
/// to 20, text cut to the character cap, sketches of at most 2000 points,
/// anchors and page rects inside the page, no page inside a page).
pub proof fn law_turn_cards_follow_the_rules(list: Seq<Option<RawCard>>, max_text_chars: int)
    requires
        max_text_chars >= 0,
    ensures
        ({
            let s = selected(cards_of(list, max_text_chars));
            &&& s.len() <= MAX_CARDS
            &&& forall|i: int| 0 <= i < s.len() ==> card_clamped(#[trigger] s[i], max_text_chars)
            &&& (exists|i: int| 0 <= i < s.len() && #[trigger] s[i] is Page) ==> s.len() == 1
        }),
{
    let cs = cards_of(list, max_text_chars);
    lemma_cards_clamped(list, max_text_chars);
    lemma_first_page_index(cs);
    let s = selected(cs);
    match first_page_index(cs) {
        Some(i) => {
            assert(card_clamped(cs[i], max_text_chars));
            assert forall|k: int| 0 <= k < s.len() implies card_clamped(#[trigger] s[k], max_text_chars) by {
                assert(s[k] == cs[i]);
            }
        },
        None => {
            assert forall|k: int| 0 <= k < s.len() implies card_clamped(#[trigger] s[k], max_text_chars) && !(s[k] is Page) by {
                assert(s[k] == cs[k]);
            }
        },
    }
}


/// Law: each wire word names its own variant, and only that word does:
/// a lowercased word gives a placement, size, pace, page action, count
/// style, trace kind or guide other than the default exactly when it is
/// that variant's word (so "l" is the one word for a large card, "s" the
/// one for a small one; every other word is the default).
pub proof fn law_wire_words_name_their_variants(w: Seq<char>)
    ensures
        (place_named(w) == Place::NearNewInk) <==> w == "near_new_ink"@,
        (place_named(w) == Place::NearAnchor) <==> w == "near_anchor"@,
        (place_named(w) == Place::Margin) <==> w == "margin"@,
        (place_named(w) == Place::FullPage) <==> w == "full_page"@,
        (size_named(w) == Size::S) <==> w == "s"@,
        (size_named(w) == Size::L) <==> w == "l"@,
        (pace_named(w) == Pace::Slow) <==> w == "slow"@,
        (page_action_named(w) == PageAction::SuggestNewPage) <==> w == "suggest_new_page"@,
        (page_action_named(w) == PageAction::NewPage) <==> w == "new_page"@,
        (count_style_named(w) == CountStyle::Tally) <==> w == "tally"@,
        (count_style_named(w) == CountStyle::Numbers) <==> w == "numbers"@,
        (trace_kind_named(w) == TraceKind::Hanzi) <==> w == "hanzi"@,
        (trace_guide_named(w) == TraceGuide::TianGrid) <==> w == "tian_grid"@,
{
    lemma_place_words(w);
    lemma_size_words(w);
    lemma_other_words(w);
}

proof fn lemma_place_words(w: Seq<char>)
    ensures
        (place_named(w) == Place::NearNewInk) <==> w == "near_new_ink"@,
        (place_named(w) == Place::NearAnchor) <==> w == "near_anchor"@,
        (place_named(w) == Place::Margin) <==> w == "margin"@,
        (place_named(w) == Place::FullPage) <==> w == "full_page"@,
{
    reveal_strlit("near_new_ink");
    reveal_strlit("near_anchor");
    reveal_strlit("blank_area");
    reveal_strlit("margin");
    reveal_strlit("full_page");
    assert("near_new_ink"@.len() == 12);
    assert("near_anchor"@.len() == 11);
    assert("blank_area"@.len() == 10);
    assert("margin"@.len() == 6);
    assert("full_page"@.len() == 9);
}

proof fn lemma_size_words(w: Seq<char>)
    ensures
        (size_named(w) == Size::S) <==> w == "s"@,
        (size_named(w) == Size::L) <==> w == "l"@,
{
    reveal_strlit("s");
    reveal_strlit("m");
    reveal_strlit("l");
    assert("s"@[0] == 's' && "m"@[0] == 'm' && "l"@[0] == 'l');
    assert("s"@ != "m"@ && "s"@ != "l"@ && "m"@ != "l"@);
}

proof fn lemma_other_words(w: Seq<char>)
    ensures
        (pace_named(w) == Pace::Slow) <==> w == "slow"@,
        (page_action_named(w) == PageAction::SuggestNewPage) <==> w == "suggest_new_page"@,
        (page_action_named(w) == PageAction::NewPage) <==> w == "new_page"@,
        (count_style_named(w) == CountStyle::Tally) <==> w == "tally"@,
        (count_style_named(w) == CountStyle::Numbers) <==> w == "numbers"@,
        (trace_kind_named(w) == TraceKind::Hanzi) <==> w == "hanzi"@,
        (trace_guide_named(w) == TraceGuide::TianGrid) <==> w == "tian_grid"@,
{
    reveal_strlit("normal");
    reveal_strlit("slow");
    reveal_strlit("none");
    reveal_strlit("suggest_new_page");
    reveal_strlit("new_page");
    reveal_strlit("dots");
    reveal_strlit("tally");
    reveal_strlit("numbers");
    reveal_strlit("shape");
    reveal_strlit("hanzi");
    reveal_strlit("tian_grid");
    assert("normal"@.len() == 6 && "slow"@.len() == 4);
    assert("none"@.len() == 4 && "suggest_new_page"@.len() == 16 && "new_page"@.len() == 8);
    assert("dots"@.len() == 4 && "tally"@.len() == 5 && "numbers"@.len() == 7);
    assert("tian_grid"@.len() == 9);
    assert("shape"@[0] == 's' && "hanzi"@[0] == 'h');
    assert("shape"@ != "hanzi"@);
}
} // verus!
