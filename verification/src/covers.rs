//! The cover-art carousel: which covers are kept decoded around the current game.

use vstd::prelude::*;

use vstd::utf8::encode_utf8;

use crate::text::chars_of;

verus! {

/// Number of covers kept decoded on each side of the current game.
pub const COVER_WINDOW: usize = 2;

/// Largest width or height a decoded cover is scaled down to.
pub const COVER_MAX_DIM: u32 = 640;

/// Distance between two positions on a ring of `n` slots.
pub open spec fn ring_distance(a: int, b: int, n: int) -> int {
    let forward = (a + n - b) % n;
    if forward <= n - forward { forward } else { n - forward }
}

/// A cover image decoded to RGBA pixels, row by row.
pub struct DecodedCover {
    pub width: u32,
    pub height: u32,
    pub rgba: Vec<u8>,
}

/// Shortest distance between `a` and `b` on a ring of `n` positions
/// (`usize::MAX` for an empty ring).
pub fn circular_distance(a: usize, b: usize, n: usize) -> (d: usize)
    requires
        n == 0 || (b <= a + n && a + n <= usize::MAX),
    ensures
        n == 0 ==> d == usize::MAX,
        n > 0 ==> d == ring_distance(a as int, b as int, n as int),
{
    if n == 0 {
        return usize::MAX;
    }
    let forward = (a + n - b) % n;
    if forward <= n - forward { forward } else { n - forward }
}

/// On a ring, the distance between two positions is symmetric, at most
/// half the ring, and zero exactly between equal positions.
pub proof fn lemma_ring_distance(a: int, b: int, n: int)
    requires
        0 <= a < n,
        0 <= b < n,
    ensures
        ring_distance(a, b, n) == ring_distance(b, a, n),
        0 <= ring_distance(a, b, n) <= n / 2,
        ring_distance(a, b, n) == 0 <==> a == b,
{
    let x = a + n - b;
    let y = b + n - a;
    if a >= b {
        assert(x % n == a - b) by {
            vstd::arithmetic::div_mod::lemma_mod_add_multiples_vanish(a - b, n);
            vstd::arithmetic::div_mod::lemma_small_mod((a - b) as nat, n as nat);
        }
        if a == b {
            assert(y % n == 0) by {
                vstd::arithmetic::div_mod::lemma_mod_self_0(n);
            }
        } else {
            assert(y % n == n - (a - b)) by {
                vstd::arithmetic::div_mod::lemma_small_mod((n - (a - b)) as nat, n as nat);
            }
        }
    } else {
        assert(y % n == b - a) by {
            vstd::arithmetic::div_mod::lemma_mod_add_multiples_vanish(b - a, n);
            vstd::arithmetic::div_mod::lemma_small_mod((b - a) as nat, n as nat);
        }
        assert(x % n == n - (b - a)) by {
            vstd::arithmetic::div_mod::lemma_small_mod((n - (b - a)) as nat, n as nat);
        }
    }
}

/// Whether game `i` is close enough to the current one for its cover to be
/// kept decoded; with few games all of them are.
pub open spec fn spec_in_window(i: int, current: int, n: int) -> bool {
    n <= 2 * COVER_WINDOW + 1 || ring_distance(i, current, n) <= COVER_WINDOW
}

/// Whether game `i` of `n` lies in the cover window around `current`.
pub fn in_window(i: usize, current: usize, n: usize) -> (w: bool)
    requires
        n <= 2 * COVER_WINDOW + 1 || (current <= i + n && i + n <= usize::MAX),
    ensures
        w == spec_in_window(i as int, current as int, n as int),
{
    (n <= 2 * COVER_WINDOW + 1) || (circular_distance(i, current, n) <= COVER_WINDOW)
}

/// Work that the cover window asks of the UI.
#[derive(Clone, Copy, Debug, PartialEq, Eq, Structural)]
pub enum CoverAction {
    /// Start decoding game `i`'s cover image in the background.
    Load(usize),
    /// Game `i` has no cover image: keep an empty image for it.
    Placeholder(usize),
    /// Drop game `i`'s decoded cover and show its placeholder again.
    Evict(usize),
}

/// Which covers are decoded, or being decoded, around the current game.
pub struct CoverState {
    has_cover: Vec<bool>,
    cached: Vec<bool>,
    loading: Vec<bool>,
    current: usize,
}

pub struct CoverView {
    /// Whether each game names a cover image.
    pub has_cover: Seq<bool>,
    /// Whether each game's cover (or its empty placeholder) is held.
    pub cached: Seq<bool>,
    /// Whether each game's cover is being decoded.
    pub loading: Seq<bool>,
    pub current: int,
}

impl CoverView {
    pub open spec fn len(self) -> int {
        self.has_cover.len() as int
    }

    /// One flag of each kind per game, no cover both held and being decoded,
    /// and indices that stay within machine limits.
    pub open spec fn wf(self) -> bool {
        &&& self.cached.len() == self.has_cover.len()
        &&& self.loading.len() == self.has_cover.len()
        &&& 2 * self.len() <= usize::MAX
        &&& 0 <= self.current <= usize::MAX
        &&& forall|i: int| 0 <= i < self.len() ==> !(self.cached[i] && self.loading[i])
    }

    /// The indices handed to the ring distance stay in range.
    pub open spec fn current_ok(self) -> bool {
        self.len() <= 2 * COVER_WINDOW + 1 || self.current <= self.len()
    }

    pub open spec fn window(self, i: int) -> bool {
        spec_in_window(i, self.current, self.len())
    }
}

impl View for CoverState {
    type V = CoverView;

    closed spec fn view(&self) -> CoverView {
        CoverView {
            has_cover: self.has_cover@,
            cached: self.cached@,
            loading: self.loading@,
            current: self.current as int,
        }
    }
}

/// What refreshing does to game `i`: (held, decoding, action).
pub open spec fn refresh_slot(v: CoverView, i: int) -> (bool, bool, Option<CoverAction>) {
    let w = v.window(i);
    if w && !v.cached[i] && !v.loading[i] {
        if v.has_cover[i] {
            (false, true, Some(CoverAction::Load(i as usize)))
        } else {
            (true, false, Some(CoverAction::Placeholder(i as usize)))
        }
    } else if !w && v.cached[i] {
        (false, false, Some(CoverAction::Evict(i as usize)))
    } else {
        (v.cached[i], v.loading[i], None)
    }
}

/// The actions for games `0..k`, in order.
pub open spec fn refresh_actions(v: CoverView, k: int) -> Seq<CoverAction>
    decreases k,
{
    if k <= 0 {
        Seq::empty()
    } else {
        match refresh_slot(v, k - 1).2 {
            Some(a) => refresh_actions(v, k - 1).push(a),
            None => refresh_actions(v, k - 1),
        }
    }
}

/// The state after refreshing: every game updated by `refresh_slot`.
pub open spec fn spec_refresh(v: CoverView) -> CoverView {
    CoverView {
        cached: Seq::new(v.cached.len(), |i: int| refresh_slot(v, i).0),
        loading: Seq::new(v.loading.len(), |i: int| refresh_slot(v, i).1),
        ..v
    }
}

/// The state after a decoded cover (or a failed decoding) for game `index`
/// arrives, and whether the UI should show it.
pub open spec fn spec_apply_cover(v: CoverView, index: int) -> (CoverView, bool) {
    if index >= v.loading.len() {
        (v, false)
    } else {
        let v1 = CoverView { loading: v.loading.update(index, false), ..v };
        if !v.window(index) || v.cached[index] {
            (v1, false)
        } else {
            (CoverView { cached: v.cached.update(index, true), ..v1 }, true)
        }
    }
}

impl CoverState {
    /// The window for games of which `has_cover` tells which name a cover
    /// image, with the first game current and nothing decoded yet.
    pub fn new(has_cover: Vec<bool>) -> (s: Self)
        requires
            2 * has_cover@.len() <= usize::MAX,
        ensures
            s@.has_cover == has_cover@,
            s@.cached == Seq::new(has_cover@.len(), |i: int| false),
            s@.loading == Seq::new(has_cover@.len(), |i: int| false),
            s@.current == 0,
            s@.wf(),
    {
        let n = has_cover.len();
        let s = CoverState {
            has_cover,
            cached: vec![false; n],
            loading: vec![false; n],
            current: 0,
        };
        proof {
            assert(s@.cached =~= Seq::new(n as nat, |i: int| false));
            assert(s@.loading =~= Seq::new(n as nat, |i: int| false));
        }
        s
    }

    /// Makes `index` the current game and refreshes the window.
    pub fn set_current(&mut self, index: usize) -> (actions: Vec<CoverAction>)
        requires
            old(self)@.wf(),
            (CoverView { current: index as int, ..old(self)@ }).current_ok(),
        ensures
            final(self)@ == spec_refresh(CoverView { current: index as int, ..old(self)@ }),
            actions@ == refresh_actions(
                CoverView { current: index as int, ..old(self)@ },
                old(self)@.len(),
            ),
            final(self)@.wf(),
    {
        self.current = index;
        self.refresh()
    }

    /// Starts decoding covers that entered the window and drops those that
    /// left it; returns what the UI has to do, game by game.
    pub fn refresh(&mut self) -> (actions: Vec<CoverAction>)
        requires
            old(self)@.wf(),
            old(self)@.current_ok(),
        ensures
            final(self)@ == spec_refresh(old(self)@),
            actions@ == refresh_actions(old(self)@, old(self)@.len()),
            final(self)@.wf(),
    {
        let ghost v = self@;
        let n = self.has_cover.len();
        let mut actions: Vec<CoverAction> = Vec::new();
        let mut i: usize = 0;
        while i < n
            invariant
                v.wf(),
                v.current_ok(),
                n == v.len(),
                0 <= i <= n,
                self.has_cover@ == v.has_cover,
                self.current == v.current,
                self.cached@.len() == n,
                self.loading@.len() == n,
                forall|j: int|
                    0 <= j < i ==> self.cached@[j] == refresh_slot(v, j).0 && self.loading@[j]
                        == refresh_slot(v, j).1,
                forall|j: int|
                    i <= j < n ==> self.cached@[j] == v.cached[j] && self.loading@[j]
                        == v.loading[j],
                actions@ == refresh_actions(v, i as int),
            decreases n - i,
        {
            let w = in_window(i, self.current, n);
            if w && !self.cached[i] && !self.loading[i] {
                if self.has_cover[i] {
                    self.loading.set(i, true);
                    actions.push(CoverAction::Load(i));
                } else {
                    self.cached.set(i, true);
                    actions.push(CoverAction::Placeholder(i));
                }
            } else if !w && self.cached[i] {
                self.cached.set(i, false);
                self.loading.set(i, false);
                actions.push(CoverAction::Evict(i));
            }
            i = i + 1;
        }
        proof {
            assert(self@.cached =~= spec_refresh(v).cached);
            assert(self@.loading =~= spec_refresh(v).loading);
        }
        actions
    }

    /// Takes the outcome of decoding game `index`'s cover; returns whether
    /// the UI should now show it (it is still in the window and nothing is
    /// shown for it yet).
    pub fn apply_cover(&mut self, index: usize) -> (show: bool)
        requires
            old(self)@.wf(),
            index < old(self)@.len() ==> old(self)@.current_ok(),
        ensures
            (final(self)@, show) == spec_apply_cover(old(self)@, index as int),
            final(self)@.wf(),
            index < old(self)@.len() ==> !final(self)@.loading[index as int],
            show <==> (index < old(self)@.len() && old(self)@.window(index as int)
                && !old(self)@.cached[index as int]),
    {
        let n = self.has_cover.len();
        if index >= self.loading.len() {
            return false;
        }
        self.loading.set(index, false);
        if !in_window(index, self.current, n) {
            return false;
        }
        if self.cached[index] {
            return false;
        }
        self.cached.set(index, true);
        true
    }
}

/// After a refresh every game in the window has its cover held or being
/// decoded, no game outside it holds one, and no cover is both held and
/// being decoded.
pub proof fn lemma_refresh_window(v: CoverView)
    requires
        v.wf(),
    ensures
        spec_refresh(v).wf(),
        forall|i: int|
            0 <= i < v.len() ==> (v.window(i) ==> spec_refresh(v).cached[i]
                || spec_refresh(v).loading[i]) && (!v.window(i) ==> !spec_refresh(v).cached[i]),
{
}

/// Refreshing twice asks for nothing the second time.
pub proof fn lemma_refresh_idempotent(v: CoverView)
    requires
        v.wf(),
    ensures
        spec_refresh(spec_refresh(v)) == spec_refresh(v),
        refresh_actions(spec_refresh(v), v.len()) == Seq::<CoverAction>::empty(),
{
    let r = spec_refresh(v);
    assert(spec_refresh(r).cached =~= r.cached);
    assert(spec_refresh(r).loading =~= r.loading);
    lemma_no_actions(r, v.len());
}

proof fn lemma_no_actions(r: CoverView, k: int)
    requires
        0 <= k <= r.len(),
        r.wf(),
        forall|i: int|
            0 <= i < r.len() ==> (r.window(i) ==> r.cached[i] || r.loading[i]) && (!r.window(i)
                ==> !r.cached[i]),
    ensures
        refresh_actions(r, k) == Seq::<CoverAction>::empty(),
    decreases k,
{
    if k > 0 {
        lemma_no_actions(r, k - 1);
    }
}

/// A decoded cover arriving for a game of the list always ends that game's
/// decoding, whether or not the game is still in the window; it is shown
/// exactly when the game is in the window and nothing is held for it yet,
/// and no other game changes. A cover for an index past the list changes
/// nothing.
pub proof fn lemma_apply_cover_ends_decoding(v: CoverView, index: int)
    requires
        v.wf(),
        0 <= index,
    ensures
        ({
            let (r, show) = spec_apply_cover(v, index);
            &&& r.wf()
            &&& r.has_cover == v.has_cover
            &&& r.current == v.current
            &&& index < v.len() ==> !r.loading[index]
            &&& index < v.len() ==> (show <==> v.window(index) && !v.cached[index])
            &&& index < v.len() ==> r.cached[index] == (v.cached[index] || show)
            &&& forall|j: int|
                0 <= j < v.len() && j != index ==> r.cached[j] == v.cached[j] && r.loading[j]
                    == v.loading[j]
            &&& r.cached.len() == v.cached.len() && r.loading.len() == v.loading.len()
            &&& index >= v.len() ==> r == v && !show
        }),
{
}

/// The actions of a refresh are exactly those that `refresh_slot` gives for
/// the games, each one at most once.
proof fn lemma_actions_contain(v: CoverView, k: int, a: CoverAction)
    requires
        0 <= k,
    ensures
        refresh_actions(v, k).contains(a) <==> exists|j: int|
            0 <= j < k && #[trigger] refresh_slot(v, j).2 == Some(a),
    decreases k,
{
    if k > 0 {
        lemma_actions_contain(v, k - 1, a);
        let s = refresh_actions(v, k - 1);
        match refresh_slot(v, k - 1).2 {
            Some(b) => {
                let t = s.push(b);
                assert(refresh_actions(v, k) == t);
                if t.contains(a) {
                    let x = choose|x: int| 0 <= x < t.len() && t[x] == a;
                    if x < s.len() {
                        assert(s[x] == a);
                        assert(s.contains(a));
                    } else {
                        assert(refresh_slot(v, k - 1).2 == Some(a));
                    }
                }
                if exists|j: int| 0 <= j < k && #[trigger] refresh_slot(v, j).2 == Some(a) {
                    let j = choose|j: int| 0 <= j < k && #[trigger] refresh_slot(v, j).2 == Some(a);
                    if j < k - 1 {
                        let x = choose|x: int| 0 <= x < s.len() && s[x] == a;
                        assert(t[x] == a);
                    } else {
                        assert(t[s.len() as int] == a);
                    }
                }
            },
            None => {
                if exists|j: int| 0 <= j < k && #[trigger] refresh_slot(v, j).2 == Some(a) {
                    let j = choose|j: int| 0 <= j < k && #[trigger] refresh_slot(v, j).2 == Some(a);
                    assert(j != k - 1);
                }
            },
        }
    }
}

/// What a refresh asks for, game by game: a game in the window that holds
/// nothing and is not being decoded gets a `Load` when it names a cover and a
/// `Placeholder` when it does not; a game outside the window that holds its
/// cover gets an `Evict`; nothing else is asked for.
pub proof fn lemma_refresh_actions(v: CoverView, i: usize)
    requires
        v.wf(),
    ensures
        refresh_actions(v, v.len()).contains(CoverAction::Load(i)) <==> (i < v.len() && v.window(
            i as int,
        ) && !v.cached[i as int] && !v.loading[i as int] && v.has_cover[i as int]),
        refresh_actions(v, v.len()).contains(CoverAction::Placeholder(i)) <==> (i < v.len()
            && v.window(i as int) && !v.cached[i as int] && !v.loading[i as int]
            && !v.has_cover[i as int]),
        refresh_actions(v, v.len()).contains(CoverAction::Evict(i)) <==> (i < v.len()
            && !v.window(i as int) && v.cached[i as int]),
{
    let n = v.len();
    lemma_actions_contain(v, n, CoverAction::Load(i));
    lemma_actions_contain(v, n, CoverAction::Placeholder(i));
    lemma_actions_contain(v, n, CoverAction::Evict(i));
    let acts = refresh_actions(v, n);
    if i < n && v.window(i as int) && !v.cached[i as int] && !v.loading[i as int] {
        assert(refresh_slot(v, i as int).2 == Some(
            if v.has_cover[i as int] {
                CoverAction::Load(i)
            } else {
                CoverAction::Placeholder(i)
            },
        ));
    }
    if acts.contains(CoverAction::Load(i)) {
        let j = choose|j: int|
            0 <= j < n && #[trigger] refresh_slot(v, j).2 == Some(CoverAction::Load(i));
        assert(j as usize == j);
    }
    if acts.contains(CoverAction::Placeholder(i)) {
        let j = choose|j: int|
            0 <= j < n && #[trigger] refresh_slot(v, j).2 == Some(CoverAction::Placeholder(i));
        assert(j as usize == j);
    }
}

/// A game whose cover arrived after it left the window, and which holds
/// nothing, gets its cover loaded again as soon as it is back in the window.
pub proof fn lemma_late_cover_reloads(v: CoverView, index: usize, current: usize)
    requires
        v.wf(),
        index < v.len(),
        v.has_cover[index as int],
        !v.cached[index as int],
        !v.window(index as int),
        ({
            let back = CoverView { current: current as int, ..spec_apply_cover(v, index as int).0 };
            back.window(index as int)
        }),
    ensures
        ({
            let r = spec_apply_cover(v, index as int);
            let back = CoverView { current: current as int, ..r.0 };
            &&& !r.1
            &&& refresh_actions(back, back.len()).contains(CoverAction::Load(index))
        }),
{
    lemma_apply_cover_ends_decoding(v, index as int);
    let back = CoverView { current: current as int, ..spec_apply_cover(v, index as int).0 };
    lemma_refresh_actions(back, index);
}

/// The string hash of a game's name: each byte in turn, `h * 31 + byte`,
/// modulo 2^32.
pub open spec fn name_hash(bytes: Seq<u8>) -> int
    decreases bytes.len(),
{
    if bytes.len() == 0 {
        0
    } else {
        (name_hash(bytes.drop_last()) * 31 + bytes.last()) % 0x1_0000_0000
    }
}

/// The hue, in degrees, of a game's placeholder colours: its name's hash
/// modulo 360 (the UTF-8 bytes of the name are hashed).
pub fn placeholder_hue(name: &str) -> (hue: u32)
    ensures
        hue == name_hash(encode_utf8(name@)) % 360,
        hue < 360,
{
    let bytes = name.as_bytes();
    let mut hash: u32 = 0;
    let mut i: usize = 0;
    proof {
        assert(bytes@.take(0) =~= Seq::<u8>::empty());
    }
    while i < bytes.len()
        invariant
            0 <= i <= bytes@.len(),
            hash == name_hash(bytes@.take(i as int)),
        decreases bytes@.len() - i,
    {
        let b = bytes[i];
        proof {
            assert(bytes@.take(i + 1).drop_last() =~= bytes@.take(i as int));
        }
        let ghost h = hash;
        hash = hash.wrapping_mul(31).wrapping_add(b as u32);
        proof {
            let m = (h as int * 31) % 0x1_0000_0000;
            assert((m + b as int) % 0x1_0000_0000 == (h as int * 31 + b as int) % 0x1_0000_0000)
                by (nonlinear_arith)
                requires
                    m == (h as int * 31) % 0x1_0000_0000,
            ;
        }
        i = i + 1;
    }
    proof {
        assert(bytes@.take(bytes@.len() as int) =~= bytes@);
    }
    hash % 360
}

/// What `char::to_uppercase` yields for a character.
pub uninterp spec fn char_uppercase(c: char) -> Seq<char>;

/// Calls `char::to_uppercase` and collects what it yields. Its result is
/// named `char_uppercase`; stated beyond the name is only its documented
/// behaviour on ASCII: `a`..=`z` become `A`..=`Z` and other ASCII characters
/// stay as they are.
#[verifier::external_body]
fn uppercase(c: char) -> (s: String)
    ensures
        s@ == char_uppercase(c),
        'a' <= c <= 'z' ==> s@ == seq![((c as u32) - 32) as char],
        (c as u32) < 0x80 && !('a' <= c <= 'z') ==> s@ == seq![c],
{
    c.to_uppercase().to_string()
}

/// The letter shown on a game's placeholder: the first character of its
/// name in upper case, or nothing for an empty name.
pub open spec fn spec_title_initial(name: Seq<char>) -> Seq<char> {
    if name.len() > 0 {
        char_uppercase(name[0])
    } else {
        Seq::empty()
    }
}

/// The letter shown on a game's placeholder.
pub fn title_initial(name: &str) -> (s: String)
    ensures
        s@ == spec_title_initial(name@),
{
    let chars = chars_of(name);
    if chars.len() > 0 {
        uppercase(chars[0])
    } else {
        String::new()
    }
}

/// The image that the `image` crate decodes from `bytes`, taking the format
/// from the file extension `extension`: its width, height and RGBA8 pixels,
/// or `None` where it cannot decode it.
pub uninterp spec fn image_decoded(extension: Seq<char>, bytes: Seq<u8>) -> Option<
    (u32, u32, Seq<u8>),
>;

/// The `image` crate's thumbnail, fitting within `max` by `max`, of the
/// image decoded from `bytes`: its width, height and RGBA8 pixels.
pub uninterp spec fn image_thumbnail(extension: Seq<char>, bytes: Seq<u8>, max: u32) -> (
    u32,
    u32,
    Seq<u8>,
);

/// Calls `image::load_from_memory_with_format`, with the format that
/// `ImageFormat::from_extension` gives for `extension` (as `ImageReader::open`
/// picks it from a path), and converts the image to RGBA8 (`to_rgba8`,
/// `into_raw`). The result is named `image_decoded`; stated beyond the name
/// is only that an RGBA8 buffer holds 4 bytes per pixel.
#[verifier::external_body]
fn decode_rgba(extension: &str, bytes: &[u8]) -> (r: Option<(u32, u32, Vec<u8>)>)
    ensures
        r matches Some((w, h, px)) ==> image_decoded(extension@, bytes@) == Some((w, h, px@)),
        r is None ==> image_decoded(extension@, bytes@) is None,
        r matches Some((w, h, px)) ==> px@.len() == 4 * w * h,
{
    let format = image::ImageFormat::from_extension(extension)?;
    let rgba = image::load_from_memory_with_format(bytes, format).ok()?.to_rgba8();
    Some((rgba.width(), rgba.height(), rgba.into_raw()))
}

/// Calls `DynamicImage::thumbnail(max, max)` on the image decoded from
/// `bytes` as `decode_rgba` decodes it, and converts the thumbnail to RGBA8.
/// The result is named `image_thumbnail`; stated beyond the name are the
/// documented facts that the thumbnail fits within the bounds and that an
/// RGBA8 buffer holds 4 bytes per pixel.
#[verifier::external_body]
fn thumbnail_rgba(extension: &str, bytes: &[u8], max: u32) -> (r: (u32, u32, Vec<u8>))
    requires
        image_decoded(extension@, bytes@) is Some,
        max >= 1,
    ensures
        image_thumbnail(extension@, bytes@, max) == (r.0, r.1, r.2@),
        r.0 <= max,
        r.1 <= max,
        r.2@.len() == 4 * r.0 * r.1,
{
    let format = image::ImageFormat::from_extension(extension).unwrap();
    let img = image::load_from_memory_with_format(bytes, format).unwrap();
    let rgba = img.thumbnail(max, max).to_rgba8();
    (rgba.width(), rgba.height(), rgba.into_raw())
}

/// The cover shown for an image file: the decoded image where it fits within
/// `COVER_MAX_DIM` on both sides, otherwise its thumbnail.
pub open spec fn spec_decode_cover(extension: Seq<char>, bytes: Seq<u8>) -> Option<
    (u32, u32, Seq<u8>),
> {
    match image_decoded(extension, bytes) {
        None => None,
        Some((w, h, px)) => if w > COVER_MAX_DIM || h > COVER_MAX_DIM {
            Some(image_thumbnail(extension, bytes, COVER_MAX_DIM))
        } else {
            Some((w, h, px))
        },
    }
}

/// Decodes a cover image file's contents (`extension` names its format) and
/// scales it down to fit within `COVER_MAX_DIM`.
pub fn decode_cover(extension: &str, bytes: &[u8]) -> (r: Option<DecodedCover>)
    ensures
        r is None <==> image_decoded(extension@, bytes@) is None,
        r matches Some(d) ==> spec_decode_cover(extension@, bytes@) == Some(
            (d.width, d.height, d.rgba@),
        ),
        r matches Some(d) ==> d.width <= COVER_MAX_DIM && d.height <= COVER_MAX_DIM
            && d.rgba@.len() == 4 * d.width * d.height,
{
    let (w, h, rgba) = match decode_rgba(extension, bytes) {
        Some(decoded) => decoded,
        None => {
            return None;
        },
    };
    if w > COVER_MAX_DIM || h > COVER_MAX_DIM {
        let (tw, th, trgba) = thumbnail_rgba(extension, bytes, COVER_MAX_DIM);
        Some(DecodedCover { width: tw, height: th, rgba: trgba })
    } else {
        Some(DecodedCover { width: w, height: h, rgba })
    }
}

} // verus!
