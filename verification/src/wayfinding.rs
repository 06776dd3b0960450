//! Making the folder tree legible on the ground: a ward's colours descend
//! from its top-level ancestor and lighten with depth, its kerb is its own
//! ground in shadow, and names are painted in capitals.

use vstd::prelude::*;
use crate::scene::MapColor;
use crate::aliases::chars_lt_exec;
use crate::text::{
    chars_lt, chars_of, lemma_chars_lt_irreflexive, lemma_chars_lt_transitive, string_of, trim,
    trim_exec,
};

verus! {

/// One channel of a ward's ground: the family's base tone, which the hue
/// shifts by `span`, walked `depth` fifths of three quarters of the way
/// toward `pale`. In exact arithmetic, rounded down.
pub open spec fn ground_channel(hue: int, depth: int, base: int, span: int, pale: int) -> int {
    ((23 * base + span * hue) * (20 - 3 * depth) + 69 * depth * pale) / 460
}

/// A ward's ground (red, green, blue) from its family's seed and its depth.
pub open spec fn ground_of(seed: u32, depth: nat) -> (int, int, int) {
    let hue = (seed % 23) as int;
    let d = if depth < 5 {
        depth as int
    } else {
        5
    };
    (
        ground_channel(hue, d, 66, 22, 188),
        ground_channel(hue, d, 84, 14, 192),
        ground_channel(hue, d, 50, 20, 150),
    )
}

/// A kerb channel: the ground channel at thirteen twenty-fifths, plus ten.
pub open spec fn kerb_channel(g: int) -> int {
    (13 * g + 250) / 25
}

/// A ward's ground colour, opaque.
pub open spec fn ground_color(seed: u32, depth: nat) -> Seq<u8> {
    seq![
        ground_of(seed, depth).0 as u8,
        ground_of(seed, depth).1 as u8,
        ground_of(seed, depth).2 as u8,
        255u8,
    ]
}

/// A ward's kerb colour, opaque: its ground in shadow.
pub open spec fn kerb_color(seed: u32, depth: nat) -> Seq<u8> {
    seq![
        kerb_channel(ground_of(seed, depth).0) as u8,
        kerb_channel(ground_of(seed, depth).1) as u8,
        kerb_channel(ground_of(seed, depth).2) as u8,
        255u8,
    ]
}

fn ground_channel_exec(hue: u32, depth: u32, base: u32, span: u32, pale: u32) -> (r: u8)
    requires
        hue < 23,
        depth <= 5,
        base <= 84,
        span <= 22,
        pale <= 192,
        base <= pale,
    ensures
        r as int == ground_channel(hue as int, depth as int, base as int, span as int, pale as int),
{
    assert(span * hue <= 22 * 22) by (nonlinear_arith)
        requires
            span <= 22,
            hue < 23,
    ;
    assert((23 * base + span * hue) * (20 - 3 * depth) <= 2416 * 20) by (nonlinear_arith)
        requires
            23 * base + span * hue <= 2416,
            depth <= 5,
    ;
    assert(69 * depth * pale <= 69 * 5 * 192) by (nonlinear_arith)
        requires
            depth <= 5,
            pale <= 192,
    ;
    let v = ((23 * base + span * hue) * (20 - 3 * depth) + 69 * depth * pale) / 460;
    assert(v <= 255) by (nonlinear_arith)
        requires
            v == ((23 * base + span * hue) * (20 - 3 * depth) + 69 * depth * pale) / 460,
            (23 * base + span * hue) * (20 - 3 * depth) <= 2416 * 20,
            69 * depth * pale <= 69 * 5 * 192,
    ;
    v as u8
}

/// One ward's ground and kerb colours, from its family's seed and its own
/// depth: every level below the top is a fixed step lighter, up to five,
/// and the kerb is the ground darkened by a fixed proportion.
pub fn ward_palette(ancestor_seed: u32, depth: usize) -> (r: (MapColor, MapColor))
    ensures
        r.0@ == ground_color(ancestor_seed, depth as nat),
        r.1@ == kerb_color(ancestor_seed, depth as nat),
        0 <= ground_of(ancestor_seed, depth as nat).0 <= 255,
        0 <= ground_of(ancestor_seed, depth as nat).1 <= 255,
        0 <= ground_of(ancestor_seed, depth as nat).2 <= 255,
{
    let hue = ancestor_seed % 23;
    let d: u32 = if depth < 5 {
        depth as u32
    } else {
        5
    };
    let red = ground_channel_exec(hue, d, 66, 22, 188);
    let green = ground_channel_exec(hue, d, 84, 14, 192);
    let blue = ground_channel_exec(hue, d, 50, 20, 150);
    let ground: MapColor = [red, green, blue, 255];
    let edge: MapColor = [
        ((13 * (red as u32) + 250) / 25) as u8,
        ((13 * (green as u32) + 250) / 25) as u8,
        ((13 * (blue as u32) + 250) / 25) as u8,
        255,
    ];
    assert(ground@ =~= seq![red, green, blue, 255u8]);
    assert(edge@ =~= seq![
        kerb_channel(red as int) as u8,
        kerb_channel(green as int) as u8,
        kerb_channel(blue as int) as u8,
        255u8,
    ]);
    (ground, edge)
}

/// An ink channel: a third and a bit of the kerb channel over a light base,
/// at most 255.
pub open spec fn ink_channel(edge: u8, base: int) -> int {
    let v = base + (7 * edge) / 20;
    if v > 255 {
        255
    } else {
        v
    }
}

/// The ink a ward's name is painted in: its own kerb, lightened until it
/// reads against the ground it sits on.
pub fn label_ink(edge: MapColor) -> (r: MapColor)
    ensures
        r@ == seq![
            ink_channel(edge@[0], 168) as u8,
            ink_channel(edge@[1], 166) as u8,
            ink_channel(edge@[2], 140) as u8,
            255u8,
        ],
{
    let lift = |c: u8, base: u32| -> (r: u8)
        requires
            base <= 168,
        ensures
            r as int == ink_channel(c, base as int),
        {
            let v = base + (7 * (c as u32)) / 20;
            if v > 255 {
                255
            } else {
                v as u8
            }
        };
    let ink: MapColor = [lift(edge[0], 168), lift(edge[1], 166), lift(edge[2], 140), 255];
    assert(ink@ =~= seq![
        ink_channel(edge@[0], 168) as u8,
        ink_channel(edge@[1], 166) as u8,
        ink_channel(edge@[2], 140) as u8,
        255u8,
    ]);
    ink
}

/// The full Unicode uppercase mapping, which is what `str::to_uppercase`
/// gives.
pub uninterp spec fn unicode_upper(s: Seq<char>) -> Seq<char>;

/// `str::to_uppercase`: the full Unicode uppercase mapping of `s`.
#[verifier::external_body]
fn to_uppercase(s: &str) -> (r: String)
    ensures
        r@ == unicode_upper(s@),
{
    s.to_uppercase()
}

/// A folder name as it is painted: trimmed, in capitals.
pub fn shout(name: &str) -> (r: String)
    ensures
        r@ == unicode_upper(trim(name@)),
{
    let n = chars_of(name);
    let t = string_of(&trim_exec(&n));
    to_uppercase(t.as_str())
}

// ---------------------------------------------------------------------------
// Colour families
// ---------------------------------------------------------------------------

/// What wayfinding reads of a ward: who it is, how deep, whose child, its
/// own seed, and how many files stand at or below it.
#[derive(Debug)]
pub struct WardFamily {
    /// The ward's identifier.
    pub id: String,
    /// Nesting depth, zero for a top-level folder.
    pub depth: usize,
    /// The ward this one sits inside, if any.
    pub parent: Option<String>,
    /// The ward's own seed.
    pub seed: u32,
    /// Files at or below the ward's folder.
    pub files: usize,
}

/// A ward as characters and numbers.
pub struct WardModel {
    pub id: Seq<char>,
    pub depth: nat,
    pub parent: Option<Seq<char>>,
    pub seed: u32,
    pub files: nat,
}

pub open spec fn ward_model(w: WardFamily) -> WardModel {
    WardModel {
        id: w.id@,
        depth: w.depth as nat,
        parent: match w.parent {
            Some(p) => Some(p@),
            None => None,
        },
        seed: w.seed,
        files: w.files as nat,
    }
}

pub open spec fn ward_models(ws: Seq<WardFamily>) -> Seq<WardModel> {
    ws.map_values(|w: WardFamily| ward_model(w))
}

/// The last ward called `id`, or `-1`: a later ward of the same name hides
/// an earlier one.
pub open spec fn find_ward(ws: Seq<WardModel>, id: Seq<char>) -> int
    decreases ws.len(),
{
    if ws.len() == 0 {
        -1
    } else if ws.last().id == id {
        ws.len() - 1
    } else {
        find_ward(ws.drop_last(), id)
    }
}

/// Where `steps` walks up the parent chain from ward `at` end, stopping at a
/// ward whose parent is missing.
pub open spec fn climb(ws: Seq<WardModel>, at: int, steps: nat) -> int
    decreases steps,
{
    if steps == 0 || at < 0 || at >= ws.len() {
        at
    } else {
        match ws[at].parent {
            Some(p) => {
                let up = find_ward(ws, p);
                if up >= 0 {
                    climb(ws, up, (steps - 1) as nat)
                } else {
                    at
                }
            },
            None => at,
        }
    }
}

/// The top-level ancestor of ward `i`: its parent chain walked up at most
/// one step more than its depth, which is as far as a well-formed chain
/// goes and keeps a malformed one from looping.
pub open spec fn ancestor(ws: Seq<WardModel>, i: int) -> int {
    climb(ws, i, ws[i].depth + 1)
}

/// The seed a ward is coloured from: that of its ancestor, taken through
/// the last ward of its name.
pub open spec fn family_seed(ws: Seq<WardModel>, i: int) -> u32 {
    ws[ancestor(ws, find_ward(ws, ws[i].id))].seed
}

proof fn lemma_find_ward(ws: Seq<WardModel>, id: Seq<char>)
    ensures
        -1 <= find_ward(ws, id) < ws.len(),
        find_ward(ws, id) >= 0 ==> ws[find_ward(ws, id)].id == id,
        forall|j: int| find_ward(ws, id) < j < ws.len() ==> ws[j].id != id,
    decreases ws.len(),
{
    if ws.len() > 0 && ws.last().id != id {
        lemma_find_ward(ws.drop_last(), id);
        assert(forall|j: int| 0 <= j < ws.len() - 1 ==> ws.drop_last()[j] == ws[j]);
    }
}

proof fn lemma_climb_bounds(ws: Seq<WardModel>, at: int, steps: nat)
    requires
        0 <= at < ws.len(),
    ensures
        0 <= climb(ws, at, steps) < ws.len(),
    decreases steps,
{
    if steps > 0 {
        if let Some(p) = ws[at].parent {
            lemma_find_ward(ws, p);
            if find_ward(ws, p) >= 0 {
                lemma_climb_bounds(ws, find_ward(ws, p), (steps - 1) as nat);
            }
        }
    }
}

fn find_ward_exec(ws: &Vec<WardFamily>, id: &String) -> (r: Option<usize>)
    ensures
        match r {
            Some(k) => k as int == find_ward(ward_models(ws@), id@),
            None => find_ward(ward_models(ws@), id@) == -1,
        },
{
    let ghost wm = ward_models(ws@);
    let mut n = ws.len();
    assert(wm.take(n as int) =~= wm);
    while n > 0
        invariant
            n <= ws.len(),
            wm == ward_models(ws@),
            find_ward(wm, id@) == find_ward(wm.take(n as int), id@),
        decreases n,
    {
        assert(wm.take(n as int).last() == ward_model(ws@[n - 1]));
        if ws[n - 1].id == *id {
            return Some(n - 1);
        }
        assert(wm.take(n as int).drop_last() =~= wm.take(n - 1));
        n = n - 1;
    }
    None
}

/// The ward `steps` parent links above ward `at`.
fn climb_exec(ws: &Vec<WardFamily>, at: usize, steps: u128) -> (r: usize)
    requires
        at < ws.len(),
    ensures
        r as int == climb(ward_models(ws@), at as int, steps as nat),
{
    let ghost wm = ward_models(ws@);
    let mut current = at;
    let mut left = steps;
    while left > 0
        invariant
            current < ws.len(),
            wm == ward_models(ws@),
            climb(wm, at as int, steps as nat) == climb(wm, current as int, left as nat),
        decreases left,
    {
        assert(wm[current as int] == ward_model(ws@[current as int]));
        match &ws[current].parent {
            Some(p) => {
                match find_ward_exec(ws, p) {
                    Some(up) => {
                        proof {
                            lemma_find_ward(wm, p@);
                        }
                        current = up;
                        left = left - 1;
                    },
                    None => {
                        return current;
                    },
                }
            },
            None => {
                return current;
            },
        }
    }
    current
}

/// The seed each ward is coloured from, in order: its top-level ancestor's.
pub fn ancestor_seeds(wards: &Vec<WardFamily>) -> (r: Vec<u32>)
    ensures
        r.len() == wards.len(),
        forall|i: int| 0 <= i < wards.len() ==> #[trigger] r@[i] == family_seed(ward_models(wards@), i),
{
    let ghost wm = ward_models(wards@);
    let mut seeds: Vec<u32> = Vec::new();
    let mut i: usize = 0;
    while i < wards.len()
        invariant
            i <= wards.len(),
            wm == ward_models(wards@),
            seeds.len() == i,
            forall|j: int| 0 <= j < i ==> #[trigger] seeds@[j] == family_seed(wm, j),
        decreases wards.len() - i,
    {
        proof {
            lemma_find_ward(wm, wm[i as int].id);
        }
        let last = match find_ward_exec(wards, &wards[i].id) {
            Some(k) => k,
            None => {
                assert(wm[i as int].id == wards@[i as int].id@);
                assert(false);
                i
            },
        };
        let steps = wards[last].depth as u128 + 1;
        let top = climb_exec(wards, last, steps);
        proof {
            lemma_climb_bounds(wm, last as int, steps as nat);
        }
        seeds.push(wards[top].seed);
        i = i + 1;
    }
    seeds
}

/// The ground and kerb colours of every ward, one entry per ward in order,
/// each coloured from its family's seed at its own depth. Where two wards
/// share an identifier, the later entry is the one that identifier names.
pub fn ward_palettes(wards: &Vec<WardFamily>) -> (r: Vec<(String, (MapColor, MapColor))>)
    ensures
        r.len() == wards.len(),
        forall|i: int| 0 <= i < wards.len() ==> (#[trigger] r@[i]).0@ == wards@[i].id@ && r@[i].1.0@
            == ground_color(family_seed(ward_models(wards@), i), wards@[i].depth as nat) && r@[i].1.1@
            == kerb_color(family_seed(ward_models(wards@), i), wards@[i].depth as nat),
{
    let seeds = ancestor_seeds(wards);
    let mut r: Vec<(String, (MapColor, MapColor))> = Vec::new();
    let mut i: usize = 0;
    while i < wards.len()
        invariant
            i <= wards.len(),
            seeds.len() == wards.len(),
            forall|j: int| 0 <= j < wards.len() ==> #[trigger] seeds@[j] == family_seed(ward_models(wards@), j),
            r.len() == i,
            forall|j: int| 0 <= j < i ==> (#[trigger] r@[j]).0@ == wards@[j].id@ && r@[j].1.0@
                == ground_color(family_seed(ward_models(wards@), j), wards@[j].depth as nat) && r@[j].1.1@
                == kerb_color(family_seed(ward_models(wards@), j), wards@[j].depth as nat),
        decreases wards.len() - i,
    {
        let colours = ward_palette(seeds[i], wards[i].depth);
        r.push((wards[i].id.clone(), colours));
        i = i + 1;
    }
    r
}


// ---------------------------------------------------------------------------
// Which names are painted first
// ---------------------------------------------------------------------------

/// The deepest folder that gets its name painted.
pub const MAX_LABELLED_DEPTH: usize = 4;

/// The colour a name is painted in where its ward has no palette.
pub open spec fn plain_ink() -> Seq<u8> {
    seq![236u8, 228u8, 204u8, 255u8]
}

/// Whether ward `a`'s name is painted before ward `b`'s: shallower first,
/// then the one with more files, then by identifier.
pub open spec fn labelled_before(a: WardModel, b: WardModel) -> bool {
    a.depth < b.depth || (a.depth == b.depth && (a.files > b.files || (a.files == b.files && chars_lt(a.id, b.id))))
}

/// Where ward `x` goes among the wards `t` (by position in `ws`), already
/// in painting order: after every ward it is not painted before.
pub open spec fn label_position(ws: Seq<WardModel>, t: Seq<int>, x: int) -> int
    decreases t.len(),
{
    if t.len() == 0 || labelled_before(ws[x], ws[t[0]]) {
        0
    } else {
        1 + label_position(ws, t.drop_first(), x)
    }
}

/// The wards among the first `n` whose names are painted, by position, in
/// painting order; wards that tie keep the order they are listed in.
pub open spec fn label_order_of(ws: Seq<WardModel>, n: int) -> Seq<int>
    decreases n,
{
    if n <= 0 {
        Seq::<int>::empty()
    } else {
        let t = label_order_of(ws, n - 1);
        if ws[n - 1].depth <= MAX_LABELLED_DEPTH {
            t.insert(label_position(ws, t, n - 1), n - 1)
        } else {
            t
        }
    }
}

proof fn lemma_label_position_bounds(ws: Seq<WardModel>, t: Seq<int>, x: int)
    ensures
        0 <= label_position(ws, t, x) <= t.len(),
    decreases t.len(),
{
    if t.len() > 0 && !labelled_before(ws[x], ws[t[0]]) {
        lemma_label_position_bounds(ws, t.drop_first(), x);
    }
}

proof fn lemma_label_order_bounds(ws: Seq<WardModel>, n: int)
    requires
        0 <= n,
    ensures
        label_order_of(ws, n).len() <= n,
        forall|k: int| 0 <= k < label_order_of(ws, n).len() ==> 0 <= #[trigger] label_order_of(ws, n)[k] < n,
    decreases n,
{
    if n > 0 {
        lemma_label_order_bounds(ws, n - 1);
        let t = label_order_of(ws, n - 1);
        if ws[n - 1].depth <= MAX_LABELLED_DEPTH {
            let p = label_position(ws, t, n - 1);
            lemma_label_position_bounds(ws, t, n - 1);
            assert forall|k: int| 0 <= k < label_order_of(ws, n).len() implies 0 <= #[trigger] label_order_of(ws, n)[k] < n by {
                if k < p {
                    assert(label_order_of(ws, n)[k] == t[k]);
                } else if k > p {
                    assert(label_order_of(ws, n)[k] == t[k - 1]);
                }
            }
        }
    }
}

fn labelled_before_exec(a: &WardFamily, b: &WardFamily) -> (r: bool)
    ensures
        r == labelled_before(ward_model(*a), ward_model(*b)),
{
    a.depth < b.depth || (a.depth == b.depth && (a.files > b.files || (a.files == b.files
        && chars_lt_exec(&chars_of(a.id.as_str()), &chars_of(b.id.as_str())))))
}

/// The wards whose names are painted, by position, in the order they are
/// painted: no deeper than [`MAX_LABELLED_DEPTH`], shallow folders first and
/// larger ones ahead of their siblings, so the budget buys the names that
/// orient someone first.
pub fn label_order(wards: &Vec<WardFamily>) -> (r: Vec<usize>)
    ensures
        r@.map_values(|i: usize| i as int) == label_order_of(ward_models(wards@), wards.len() as int),
{
    let ghost ws = ward_models(wards@);
    let mut order: Vec<usize> = Vec::new();
    let mut i: usize = 0;
    while i < wards.len()
        invariant
            i <= wards.len(),
            ws == ward_models(wards@),
            ws.len() == wards.len(),
            order@.map_values(|k: usize| k as int) == label_order_of(ws, i as int),
        decreases wards.len() - i,
    {
        proof {
            lemma_label_order_bounds(ws, i as int);
        }
        if wards[i].depth <= MAX_LABELLED_DEPTH {
            let ghost t = order@.map_values(|k: usize| k as int);
            let mut p: usize = 0;
            assert(t.skip(0) =~= t);
            while p < order.len() && !labelled_before_exec(&wards[i], &wards[order[p]])
                invariant
                    p <= order.len(),
                    i < wards.len(),
                    ws == ward_models(wards@),
                    t == order@.map_values(|k: usize| k as int),
                    forall|k: int| 0 <= k < t.len() ==> 0 <= #[trigger] t[k] < i,
                    label_position(ws, t, i as int) == p + label_position(ws, t.skip(p as int), i as int),
                decreases order.len() - p,
            {
                assert(t.skip(p as int)[0] == t[p as int]);
                assert(t.skip(p as int).drop_first() =~= t.skip(p + 1));
                p = p + 1;
            }
            proof {
                if p < order.len() {
                    assert(t.skip(p as int)[0] == t[p as int]);
                }
                assert(label_position(ws, t, i as int) == p);
            }
            order.insert(p, i);
            assert(order@.map_values(|k: usize| k as int) =~= t.insert(p as int, i as int));
        }
        i = i + 1;
    }
    order
}

/// The index of the last of `palettes` for ward `id`, or `-1`: a later
/// entry for the same ward hides an earlier one.
pub open spec fn last_palette(palettes: Seq<(String, (MapColor, MapColor))>, id: Seq<char>) -> int
    decreases palettes.len(),
{
    if palettes.len() == 0 {
        -1
    } else if palettes.last().0@ == id {
        palettes.len() - 1
    } else {
        last_palette(palettes.drop_last(), id)
    }
}

proof fn lemma_last_palette(palettes: Seq<(String, (MapColor, MapColor))>, id: Seq<char>)
    ensures
        -1 <= last_palette(palettes, id) < palettes.len(),
    decreases palettes.len(),
{
    if palettes.len() > 0 && palettes.last().0@ != id {
        lemma_last_palette(palettes.drop_last(), id);
    }
}

/// The colour ward `id`'s name is painted in: its kerb lightened by
/// [`label_ink`], from the last palette listed for it, or a plain ink where
/// none is.
pub fn label_colour(palettes: &Vec<(String, (MapColor, MapColor))>, id: &str) -> (r: MapColor)
    ensures
        last_palette(palettes@, id@) >= 0 ==> r@ == seq![
            ink_channel(palettes@[last_palette(palettes@, id@)].1.1@[0], 168) as u8,
            ink_channel(palettes@[last_palette(palettes@, id@)].1.1@[1], 166) as u8,
            ink_channel(palettes@[last_palette(palettes@, id@)].1.1@[2], 140) as u8,
            255u8,
        ],
        last_palette(palettes@, id@) < 0 ==> r@ == plain_ink(),
{
    let wanted = chars_of(id);
    let mut n = palettes.len();
    proof {
        lemma_last_palette(palettes@, id@);
    }
    assert(palettes@.take(n as int) =~= palettes@);
    while n > 0
        invariant
            n <= palettes.len(),
            wanted@ == id@,
            last_palette(palettes@, id@) == last_palette(palettes@.take(n as int), id@),
        decreases n,
    {
        assert(palettes@.take(n as int).last() == palettes@[n - 1]);
        if crate::text::eq_chars(&chars_of(palettes[n - 1].0.as_str()), &wanted) {
            return label_ink(palettes[n - 1].1.1);
        }
        assert(palettes@.take(n as int).drop_last() =~= palettes@.take(n - 1));
        n = n - 1;
    }
    let plain: MapColor = [236, 228, 204, 255];
    assert(plain@ =~= plain_ink());
    plain
}

// ---------------------------------------------------------------------------
// Laws
// ---------------------------------------------------------------------------

proof fn lemma_ground_at_least_base(hue: int, depth: int, base: int, span: int, pale: int)
    by (nonlinear_arith)
    requires
        0 <= hue,
        0 <= depth <= 5,
        0 <= span,
        0 <= base <= pale,
    ensures
        ground_channel(hue, depth, base, span, pale) >= base,
{
    assert((23 * base + span * hue) * (20 - 3 * depth) + 69 * depth * pale >= 460 * base);
}

proof fn lemma_kerb_below(g: int)
    requires
        g >= 50,
    ensures
        0 <= kerb_channel(g) < g,
{
}

proof fn lemma_ground_step(hue: int, depth: int, base: int, span: int, pale: int)
    by (nonlinear_arith)
    requires
        0 <= hue <= 22,
        0 <= depth < 5,
        0 <= span <= 22,
        0 <= base,
        69 * pale - 3 * (23 * base + 22 * span) >= 460,
    ensures
        ground_channel(hue, depth + 1, base, span, pale) > ground_channel(hue, depth, base, span, pale),
{
    let before = (23 * base + span * hue) * (20 - 3 * depth) + 69 * depth * pale;
    let after = (23 * base + span * hue) * (20 - 3 * (depth + 1)) + 69 * (depth + 1) * pale;
    assert(after - before == 69 * pale - 3 * (23 * base + span * hue));
    assert(span * hue <= 22 * span);
    assert(after >= before + 460);
}

/// A kerb always reads against the ground it borders: at every depth and for
/// every family, each of its channels is darker than the ground's.
pub proof fn law_a_kerb_is_darker_than_its_ground(seed: u32, depth: nat)
    ensures
        0 <= kerb_channel(ground_of(seed, depth).0) < ground_of(seed, depth).0,
        0 <= kerb_channel(ground_of(seed, depth).1) < ground_of(seed, depth).1,
        0 <= kerb_channel(ground_of(seed, depth).2) < ground_of(seed, depth).2,
{
    let hue = (seed % 23) as int;
    let d = if depth < 5 {
        depth as int
    } else {
        5
    };
    lemma_ground_at_least_base(hue, d, 66, 22, 188);
    lemma_ground_at_least_base(hue, d, 84, 14, 192);
    lemma_ground_at_least_base(hue, d, 50, 20, 150);
    lemma_kerb_below(ground_of(seed, depth).0);
    lemma_kerb_below(ground_of(seed, depth).1);
    lemma_kerb_below(ground_of(seed, depth).2);
}

/// Nesting lightens a ward's ground: each level below the top is paler in
/// every channel than the one above it, down to the fifth; past that the
/// colour stays.
pub proof fn law_nesting_lightens_the_ground(seed: u32, depth: nat)
    ensures
        depth < 5 ==> ground_of(seed, depth + 1).0 > ground_of(seed, depth).0
            && ground_of(seed, depth + 1).1 > ground_of(seed, depth).1
            && ground_of(seed, depth + 1).2 > ground_of(seed, depth).2,
        depth >= 5 ==> ground_of(seed, depth + 1) == ground_of(seed, depth),
{
    if depth < 5 {
        let hue = (seed % 23) as int;
        lemma_ground_step(hue, depth as int, 66, 22, 188);
        lemma_ground_step(hue, depth as int, 84, 14, 192);
        lemma_ground_step(hue, depth as int, 50, 20, 150);
    }
}

/// A subtree shares one colour family: a ward one level below the ward its
/// parent names is coloured from the same seed as that ward.
pub proof fn law_a_subtree_shares_one_family(ws: Seq<WardModel>, child: int, up: int)
    requires
        0 <= child < ws.len(),
        find_ward(ws, ws[child].id) == child,
        ws[child].parent matches Some(p) && find_ward(ws, p) == up,
        0 <= up,
        ws[child].depth == ws[up].depth + 1,
    ensures
        family_seed(ws, child) == family_seed(ws, up),
{
    let p = ws[child].parent.unwrap();
    lemma_find_ward(ws, p);
    assert(ws[up].id == p);
    assert(climb(ws, child, ws[child].depth + 1) == climb(ws, up, ws[up].depth + 1));
}

proof fn lemma_labelled_before_asymmetric(a: WardModel, b: WardModel)
    ensures
        !(labelled_before(a, b) && labelled_before(b, a)),
{
    if labelled_before(a, b) && labelled_before(b, a) {
        lemma_chars_lt_transitive(a.id, b.id, a.id);
        lemma_chars_lt_irreflexive(a.id);
    }
}

proof fn lemma_labelled_before_transitive(a: WardModel, b: WardModel, c: WardModel)
    requires
        labelled_before(a, b),
        labelled_before(b, c),
    ensures
        labelled_before(a, c),
{
    if a.depth == b.depth && b.depth == c.depth && a.files == b.files && b.files == c.files {
        lemma_chars_lt_transitive(a.id, b.id, c.id);
    }
}

proof fn lemma_label_position_order(ws: Seq<WardModel>, t: Seq<int>, x: int)
    ensures
        forall|k: int| 0 <= k < label_position(ws, t, x) ==> !labelled_before(ws[x], ws[#[trigger] t[k]]),
        label_position(ws, t, x) < t.len() ==> labelled_before(ws[x], ws[t[label_position(ws, t, x)]]),
    decreases t.len(),
{
    lemma_label_position_bounds(ws, t, x);
    if t.len() > 0 && !labelled_before(ws[x], ws[t[0]]) {
        lemma_label_position_order(ws, t.drop_first(), x);
        lemma_label_position_bounds(ws, t.drop_first(), x);
        assert forall|k: int| 0 <= k < label_position(ws, t, x) implies !labelled_before(ws[x], ws[#[trigger] t[k]]) by {
            if k > 0 {
                assert(t[k] == t.drop_first()[k - 1]);
            }
        }
        if label_position(ws, t, x) < t.len() {
            assert(t[label_position(ws, t, x)] == t.drop_first()[label_position(ws, t.drop_first(), x)]);
        }
    }
}

/// Names are painted in order: no ward's name comes after the name of a
/// ward it is painted before (shallower, or as deep with more files, or as
/// deep and as large with a smaller identifier).
pub proof fn law_names_are_painted_in_order(ws: Seq<WardModel>, n: int)
    ensures
        forall|i: int, j: int|
            0 <= i < j < label_order_of(ws, n).len() ==> !labelled_before(
                ws[#[trigger] label_order_of(ws, n)[j]],
                ws[#[trigger] label_order_of(ws, n)[i]],
            ),
    decreases n,
{
    if n > 0 {
        law_names_are_painted_in_order(ws, n - 1);
        let t = label_order_of(ws, n - 1);
        let x = n - 1;
        if ws[x].depth <= MAX_LABELLED_DEPTH {
            let p = label_position(ws, t, x);
            lemma_label_position_bounds(ws, t, x);
            lemma_label_position_order(ws, t, x);
            let u = t.insert(p, x);
            assert(u == label_order_of(ws, n));
            assert forall|i: int, j: int| 0 <= i < j < u.len() implies !labelled_before(ws[#[trigger] u[j]], ws[#[trigger] u[i]]) by {
                if j < p {
                    assert(u[i] == t[i] && u[j] == t[j]);
                } else if j == p {
                    assert(u[i] == t[i]);
                } else if i == p {
                    let k = j - 1;
                    assert(u[j] == t[k]);
                    if labelled_before(ws[t[k]], ws[x]) {
                        lemma_labelled_before_asymmetric(ws[t[p]], ws[x]);
                        if k > p {
                            lemma_labelled_before_transitive(ws[t[k]], ws[x], ws[t[p]]);
                            assert(!labelled_before(ws[t[k]], ws[t[p]]));
                        }
                    }
                } else if i < p {
                    assert(u[i] == t[i] && u[j] == t[j - 1]);
                } else {
                    assert(u[i] == t[i - 1] && u[j] == t[j - 1]);
                }
            }
        }
    }
}

/// Every ward no deeper than [`MAX_LABELLED_DEPTH`] has its name in the
/// painting order once, and no other ward does.
pub proof fn law_each_shallow_ward_is_named_once(ws: Seq<WardModel>, n: int)
    requires
        0 <= n <= ws.len(),
    ensures
        forall|i: int, j: int| 0 <= i < j < label_order_of(ws, n).len() ==> #[trigger] label_order_of(ws, n)[i] != #[trigger] label_order_of(ws, n)[j],
        forall|x: int| 0 <= x < n ==> (#[trigger] label_order_of(ws, n).contains(x) <==> ws[x].depth <= MAX_LABELLED_DEPTH),
        forall|k: int| 0 <= k < label_order_of(ws, n).len() ==> 0 <= #[trigger] label_order_of(ws, n)[k] < n,
    decreases n,
{
    lemma_label_order_bounds(ws, n);
    if n > 0 {
        law_each_shallow_ward_is_named_once(ws, n - 1);
        let t = label_order_of(ws, n - 1);
        let x = n - 1;
        if ws[x].depth <= MAX_LABELLED_DEPTH {
            let p = label_position(ws, t, x);
            lemma_label_position_bounds(ws, t, x);
            let u = t.insert(p, x);
            assert(u == label_order_of(ws, n));
            assert forall|i: int, j: int| 0 <= i < j < u.len() implies #[trigger] u[i] != #[trigger] u[j] by {
                if j < p {
                    assert(u[i] == t[i] && u[j] == t[j]);
                } else if j == p {
                    assert(u[i] == t[i]);
                } else if i == p {
                    assert(u[j] == t[j - 1]);
                } else if i < p {
                    assert(u[i] == t[i] && u[j] == t[j - 1]);
                } else {
                    assert(u[i] == t[i - 1] && u[j] == t[j - 1]);
                }
            }
            assert forall|y: int| 0 <= y < n implies (#[trigger] u.contains(y) <==> ws[y].depth <= MAX_LABELLED_DEPTH) by {
                if y == x {
                    assert(u[p] == x);
                } else {
                    if t.contains(y) {
                        let k = choose|k: int| 0 <= k < t.len() && t[k] == y;
                        if k < p {
                            assert(u[k] == y);
                        } else {
                            assert(u[k + 1] == y);
                        }
                    }
                    if u.contains(y) {
                        let k = choose|k: int| 0 <= k < u.len() && u[k] == y;
                        if k < p {
                            assert(t[k] == y);
                        } else if k > p {
                            assert(t[k - 1] == y);
                        }
                    }
                }
            }
        } else {
            assert(label_order_of(ws, n) == t);
            assert forall|y: int| 0 <= y < n implies (#[trigger] t.contains(y) <==> ws[y].depth <= MAX_LABELLED_DEPTH) by {
                if y == x && t.contains(y) {
                    let k = choose|k: int| 0 <= k < t.len() && t[k] == y;
                }
            }
        }
    }
}

} // verus!
