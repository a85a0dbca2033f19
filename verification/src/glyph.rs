//! One glyph of a `glyf` table: where its hinting instructions stand, and the
//! glyph without them.

use crate::bytes::{append_range, read_u16, u16_at};
use vstd::prelude::*;

verus! {

/// The number of bytes that the X coordinate of a point with this flag
/// takes.
pub open spec fn x_len(flag: u8) -> int {
    if flag & 0x12 == 0x00 {
        2
    } else if flag & 0x12 == 0x10 {
        0
    } else {
        1
    }
}

/// The number of bytes that the Y coordinate of a point with this flag
/// takes.
pub open spec fn y_len(flag: u8) -> int {
    if flag & 0x24 == 0x00 {
        2
    } else if flag & 0x24 == 0x20 {
        0
    } else {
        1
    }
}

/// The number of bytes that both coordinates of a point with this flag take.
pub open spec fn point_len(flag: u8) -> int {
    x_len(flag) + y_len(flag)
}

/// A flag array: the place where it ends, and the number of coordinate bytes
/// that its points take.
pub struct FlagRun {
    pub end: int,
    pub coords: int,
}

/// The flag array of a simple glyph that starts at place `pos` of `g` and
/// describes `points` points: the place where the array ends and the number
/// of coordinate bytes that its points take. A flag with the repeat bit
/// stands for as many points more as the byte after it says. `None` where
/// `g` ends within the array, or where a repeat runs past the last point.
pub open spec fn walk_flags(g: Seq<u8>, pos: int, points: int) -> Option<FlagRun>
    decreases points,
{
    if points <= 0 {
        Some(FlagRun { end: pos, coords: 0 })
    } else if pos >= g.len() {
        None
    } else if g[pos] & 0x08 != 0 {
        if pos + 1 >= g.len() {
            None
        } else {
            let count = 1 + g[pos + 1];
            if count > points {
                None
            } else {
                match walk_flags(g, pos + 2, points - count) {
                    Some(rest) => Some(
                        FlagRun { end: rest.end, coords: rest.coords + point_len(g[pos]) * count },
                    ),
                    None => None,
                }
            }
        }
    } else {
        match walk_flags(g, pos + 1, points - 1) {
            Some(rest) => Some(FlagRun { end: rest.end, coords: rest.coords + point_len(g[pos]) }),
            None => None,
        }
    }
}

/// The parts of a simple glyph.
pub struct SimpleGlyph {
    /// Where the array of contour end points ends and the instruction length
    /// stands.
    pub ends: int,
    /// The number of points.
    pub points: int,
    /// The number of instruction bytes.
    pub instructions: int,
    /// Where the flag array starts.
    pub flags: int,
    /// Where the coordinates end.
    pub end: int,
}

/// The parts of the simple glyph `g`, if `g` holds all of them.
pub open spec fn simple_glyph(g: Seq<u8>) -> Option<SimpleGlyph>
    recommends
        g.len() >= 2,
{
    let contours = u16_at(g, 0) as int;
    let ends = 10 + 2 * contours;
    if ends + 2 > g.len() {
        None
    } else {
        let points = if contours == 0 {
            0
        } else {
            1 + u16_at(g, ends - 2)
        };
        let instructions = u16_at(g, ends) as int;
        let flags = ends + 2 + instructions;
        match walk_flags(g, flags, points) {
            Some(run) => if flags <= g.len() && run.end + run.coords <= g.len() {
                Some(SimpleGlyph { ends, points, instructions, flags, end: run.end + run.coords })
            } else {
                None
            },
            None => None,
        }
    }
}

/// The simple glyph `g` without its instructions: the header and the contour
/// end points as they are, an instruction length of zero, then the flags and
/// coordinates as they are.
pub open spec fn stripped_simple(g: Seq<u8>) -> Option<Seq<u8>>
    recommends
        g.len() >= 2,
{
    match simple_glyph(g) {
        Some(parts) => Some(
            g.subrange(0, parts.ends) + seq![0u8, 0u8] + g.subrange(parts.flags, parts.end),
        ),
        None => None,
    }
}

/// The number of bytes of a component of a composite glyph, by the low byte
/// of its flag word: the flag word, the glyph index, two arguments of one or
/// two bytes each, and a transform of none, one, two or four numbers.
pub open spec fn component_len(low: u8) -> int {
    4 + (if low & 0x01 != 0 {
        4int
    } else {
        2int
    }) + (if low & 0x08 != 0 {
        2int
    } else if low & 0x40 != 0 {
        4int
    } else if low & 0x80 != 0 {
        8int
    } else {
        0int
    })
}

/// Where the last component of a composite glyph starts, going from the
/// component at place `pos` of `g` to the next as long as the flag word
/// announces one. `None` where `g` ends before a flag word.
pub open spec fn last_component(g: Seq<u8>, pos: int) -> Option<int>
    decreases
        (if pos <= g.len() {
            g.len() - pos
        } else {
            0
        }),
{
    if pos < 0 || pos + 2 > g.len() {
        None
    } else if g[pos + 1] & 0x20 != 0 {
        last_component(g, pos + component_len(g[pos + 1]))
    } else {
        Some(pos)
    }
}

/// The parts of a composite glyph.
pub struct CompositeGlyph {
    /// Where the last component starts.
    pub last: int,
    /// Where the last component ends.
    pub end: int,
}

/// The number of bytes at the head of a glyph, before the contour end
/// points of a simple glyph and before the components of a composite one:
/// the contour count and the bounding box.
pub const GLYPH_HEAD: usize = 10;

/// The parts of the composite glyph `g`, if `g` holds all its components.
/// The components follow the head of the glyph.
pub open spec fn composite_glyph(g: Seq<u8>) -> Option<CompositeGlyph> {
    match last_component(g, GLYPH_HEAD as int) {
        Some(last) => {
            let end = last + component_len(g[last + 1]);
            if end <= g.len() {
                Some(CompositeGlyph { last, end })
            } else {
                None
            }
        },
        None => None,
    }
}

/// The composite glyph `g` without its instructions: the head and all
/// components as they are but for the bit of the last flag word that
/// announces instructions, which is cleared, and nothing after the last
/// component.
pub open spec fn stripped_composite(g: Seq<u8>) -> Option<Seq<u8>> {
    match composite_glyph(g) {
        Some(parts) => Some(
            g.subrange(0, parts.last) + seq![g[parts.last] & 0xfe, g[parts.last + 1]] + g.subrange(
                parts.last + 2,
                parts.end,
            ),
        ),
        None => None,
    }
}

/// The glyph `g` without its instructions, if `g` holds a whole glyph. A
/// contour count below 0x8000 makes a simple glyph, another a composite one.
pub open spec fn stripped(g: Seq<u8>) -> Option<Seq<u8>> {
    if g.len() < 2 {
        None
    } else if u16_at(g, 0) < 0x8000 {
        stripped_simple(g)
    } else {
        stripped_composite(g)
    }
}

/// Whether the whole glyph `g` says that it has instructions: by its
/// instruction length where it is simple, by the flag word of its last
/// component where it is composite.
pub open spec fn carries_instructions(g: Seq<u8>) -> bool
    recommends
        stripped(g) is Some,
{
    if u16_at(g, 0) < 0x8000 {
        simple_glyph(g)->0.instructions != 0
    } else {
        g[composite_glyph(g)->0.last] & 0x01 != 0
    }
}

/// The glyph that takes the place of `g`: nothing for an empty glyph, the
/// glyph without its instructions for a whole one, and `g` itself where it is
/// cut short.
pub open spec fn dehinted(g: Seq<u8>) -> Seq<u8> {
    match stripped(g) {
        Some(bytes) => bytes,
        None => g,
    }
}

/// Whether taking `dehinted(g)` for `g` removes instructions.
pub open spec fn loses_instructions(g: Seq<u8>) -> bool {
    stripped(g) is Some && carries_instructions(g)
}

/// The number of bytes that both coordinates of a point with this flag take.
fn point_bytes(flag: u8) -> (n: usize)
    ensures
        n == point_len(flag),
        n <= 4,
{
    let x = flag & 0x12;
    let y = flag & 0x24;
    let x_bytes: usize = if x == 0x00 {
        2
    } else if x == 0x10 {
        0
    } else {
        1
    };
    let y_bytes: usize = if y == 0x00 {
        2
    } else if y == 0x20 {
        0
    } else {
        1
    };
    x_bytes + y_bytes
}

/// The number of bytes of a component with this low flag byte.
fn component_bytes(low: u8) -> (n: usize)
    ensures
        n == component_len(low),
        6 <= n <= 16,
{
    let arguments: usize = if low & 0x01 != 0 {
        4
    } else {
        2
    };
    let transform: usize = if low & 0x08 != 0 {
        2
    } else if low & 0x40 != 0 {
        4
    } else if low & 0x80 != 0 {
        8
    } else {
        0
    };
    4 + arguments + transform
}

/// The simple glyph without its instructions, and whether it had any.
#[verifier::loop_isolation(false)]
fn strip_simple(glyph: &[u8]) -> (r: Option<(Vec<u8>, bool)>)
    requires
        glyph@.len() >= 2,
        u16_at(glyph@, 0) < 0x8000,
    ensures
        match r {
            Some((bytes, hinted)) => stripped(glyph@) == Some(bytes@) && hinted
                == carries_instructions(glyph@),
            None => stripped(glyph@) is None,
        },
{
    let ghost g = glyph@;
    let len = glyph.len();
    let contours: usize = match read_u16(glyph, 0) {
        Some(v) => v as usize,
        None => {
            return None;
        },
    };
    let ends: usize = 10 + 2 * contours;
    if len < ends + 2 {
        return None;
    }
    let points: usize = if contours == 0 {
        0
    } else {
        match read_u16(glyph, ends - 2) {
            Some(v) => 1 + v as usize,
            None => {
                return None;
            },
        }
    };
    let instructions: usize = match read_u16(glyph, ends) {
        Some(v) => v as usize,
        None => {
            return None;
        },
    };
    let flags: usize = ends + 2 + instructions;
    let mut pos: usize = flags;
    let mut coords: usize = 0;
    let mut i: usize = 0;
    while i < points
        invariant
            g == glyph@,
            len == g.len(),
            0 <= i <= points <= 0x1_0000,
            flags <= pos <= flags + 2 * i,
            flags <= 0x3_0000,
            coords <= 1024 * i,
            walk_flags(g, flags as int, points as int) == (match walk_flags(
                g,
                pos as int,
                points - i,
            ) {
                Some(rest) => Some(FlagRun { end: rest.end, coords: rest.coords + coords }),
                None => None,
            }),
        decreases points - i,
    {
        if pos >= len {
            assert(walk_flags(g, pos as int, points - i) is None);
            return None;
        }
        let flag = glyph[pos];
        let per = point_bytes(flag);
        if flag & 0x08 != 0 {
            if pos + 1 >= len {
                assert(walk_flags(g, pos as int, points - i) is None);
                return None;
            }
            let count: usize = 1 + glyph[pos + 1] as usize;
            if count > points - i {
                assert(walk_flags(g, pos as int, points - i) is None);
                return None;
            }
            assert(per * count <= 1024) by (nonlinear_arith)
                requires
                    per <= 4,
                    count <= 256,
            ;
            pos = pos + 2;
            coords = coords + per * count;
            i = i + count;
        } else {
            pos = pos + 1;
            coords = coords + per;
            i = i + 1;
        }
    }
    if flags > len || pos + coords > len {
        return None;
    }
    let mut bytes: Vec<u8> = Vec::new();
    append_range(&mut bytes, glyph, 0, ends);
    bytes.push(0);
    bytes.push(0);
    append_range(&mut bytes, glyph, flags, pos + coords);
    proof {
        assert(bytes@ =~= g.subrange(0, ends as int) + seq![0u8, 0u8] + g.subrange(
            flags as int,
            pos + coords,
        ));
    }
    Some((bytes, instructions != 0))
}

/// The composite glyph without its instructions, and whether it had any.
#[verifier::loop_isolation(false)]
fn strip_composite(glyph: &[u8]) -> (r: Option<(Vec<u8>, bool)>)
    requires
        glyph@.len() >= 2,
        u16_at(glyph@, 0) >= 0x8000,
    ensures
        match r {
            Some((bytes, hinted)) => stripped(glyph@) == Some(bytes@) && hinted
                == carries_instructions(glyph@),
            None => stripped(glyph@) is None,
        },
{
    let ghost g = glyph@;
    let len = glyph.len();
    if len < GLYPH_HEAD + 2 {
        return None;
    }
    let mut pos: usize = GLYPH_HEAD;
    loop
        invariant
            g == glyph@,
            len == g.len(),
            len >= GLYPH_HEAD + 2,
            GLYPH_HEAD <= pos <= len - 2,
            last_component(g, GLYPH_HEAD as int) == last_component(g, pos as int),
        decreases len - pos,
    {
        let low = glyph[pos + 1];
        let size = component_bytes(low);
        if low & 0x20 != 0 {
            if size > len - pos - 2 {
                assert(last_component(g, pos + size) is None);
                return None;
            }
            pos = pos + size;
        } else {
            if size > len - pos {
                return None;
            }
            let high = glyph[pos];
            let mut bytes: Vec<u8> = Vec::new();
            append_range(&mut bytes, glyph, 0, pos);
            bytes.push(high & 0xfe);
            bytes.push(low);
            append_range(&mut bytes, glyph, pos + 2, pos + size);
            proof {
                assert(bytes@ =~= g.subrange(0, pos as int) + seq![g[pos as int] & 0xfe, g[pos + 1]]
                    + g.subrange(pos + 2, pos + size));
            }
            return Some((bytes, high & 0x01 != 0));
        }
    }
}

/// The glyph without its instructions, and whether it had any; `None` where
/// the glyph is cut short.
pub fn strip_glyph(glyph: &[u8]) -> (r: Option<(Vec<u8>, bool)>)
    ensures
        match r {
            Some((bytes, hinted)) => stripped(glyph@) == Some(bytes@) && hinted
                == carries_instructions(glyph@),
            None => stripped(glyph@) is None,
        },
{
    match read_u16(glyph, 0) {
        None => None,
        Some(contours) => if contours < 0x8000 {
            strip_simple(glyph)
        } else {
            strip_composite(glyph)
        },
    }
}

/// A flag array that is whole lies before the end of the glyph, and each
/// point takes at least one byte of it unless a flag repeats.
pub proof fn lemma_walk_flags_bounds(g: Seq<u8>, pos: int, points: int)
    requires
        0 <= pos,
        walk_flags(g, pos, points) is Some,
    ensures
        pos <= walk_flags(g, pos, points)->0.end,
        0 <= walk_flags(g, pos, points)->0.coords,
        points > 0 ==> pos < walk_flags(g, pos, points)->0.end <= g.len(),
    decreases points,
{
    if points > 0 {
        if g[pos] & 0x08 != 0 {
            let count = 1 + g[pos + 1];
            lemma_walk_flags_bounds(g, pos + 2, points - count);
            assert(point_len(g[pos]) * count >= 0) by (nonlinear_arith)
                requires
                    point_len(g[pos]) >= 0,
                    count >= 0,
            ;
        } else {
            lemma_walk_flags_bounds(g, pos + 1, points - 1);
        }
    }
}

/// A flag array reads the same wherever it stands: in bytes `h` that hold,
/// `delta` places earlier, what `g` holds from the start of the array to
/// its end, the array ends `delta` places earlier and its points take as
/// many coordinate bytes.
pub proof fn lemma_walk_flags_moved(g: Seq<u8>, h: Seq<u8>, pos: int, delta: int, points: int)
    requires
        0 <= pos - delta,
        0 <= pos,
        walk_flags(g, pos, points) is Some,
        walk_flags(g, pos, points)->0.end - delta <= h.len(),
        forall|k: int| pos <= k < walk_flags(g, pos, points)->0.end ==> h[k - delta] == g[k],
    ensures
        walk_flags(h, pos - delta, points) == Some(
            FlagRun {
                end: walk_flags(g, pos, points)->0.end - delta,
                coords: walk_flags(g, pos, points)->0.coords,
            },
        ),
    decreases points,
{
    if points > 0 {
        lemma_walk_flags_bounds(g, pos, points);
        assert(h[pos - delta] == g[pos]);
        if g[pos] & 0x08 != 0 {
            let count = 1 + g[pos + 1];
            lemma_walk_flags_bounds(g, pos + 2, points - count);
            assert(h[pos + 1 - delta] == g[pos + 1]);
            lemma_walk_flags_moved(g, h, pos + 2, delta, points - count);
        } else {
            lemma_walk_flags_bounds(g, pos + 1, points - 1);
            lemma_walk_flags_moved(g, h, pos + 1, delta, points - 1);
        }
    }
}

/// The bytes of a simple glyph without its instructions, place by place.
pub proof fn lemma_stripped_simple_bytes(g: Seq<u8>)
    requires
        g.len() >= 2,
        simple_glyph(g) is Some,
    ensures
        ({
            let parts = simple_glyph(g)->0;
            let new = stripped_simple(g)->0;
            &&& stripped_simple(g) is Some
            &&& 12 <= parts.ends + 2 <= parts.flags <= parts.end <= g.len()
            &&& new.len() == parts.ends + 2 + (parts.end - parts.flags)
            &&& forall|k: int| 0 <= k < parts.ends ==> new[k] == g[k]
            &&& new[parts.ends] == 0
            &&& new[parts.ends + 1] == 0
            &&& forall|k: int|
                parts.flags <= k < parts.end ==> new[k - (parts.flags - (parts.ends + 2))] == g[k]
        }),
{
    let parts = simple_glyph(g)->0;
    lemma_walk_flags_bounds(g, parts.flags, parts.points);
}

/// What dehinting keeps of a simple glyph: the contour count, the bounding
/// box and the contour end points stay, the instruction length becomes
/// zero, and the flags and coordinates follow it byte for byte. The new
/// glyph is a whole glyph with the same points and without instructions,
/// which dehinting leaves as it is.
pub proof fn lemma_stripped_simple(g: Seq<u8>)
    requires
        g.len() >= 2,
        simple_glyph(g) is Some,
    ensures
        ({
            let parts = simple_glyph(g)->0;
            let new = stripped_simple(g)->0;
            &&& stripped_simple(g) is Some
            &&& new.len() == parts.ends + 2 + (parts.end - parts.flags)
            &&& new.subrange(0, parts.ends) == g.subrange(0, parts.ends)
            &&& u16_at(new, 0) == u16_at(g, 0)
            &&& u16_at(new, parts.ends) == 0
            &&& new.subrange(parts.ends + 2, new.len() as int) == g.subrange(
                parts.flags,
                parts.end,
            )
            &&& simple_glyph(new) == Some(
                SimpleGlyph {
                    ends: parts.ends,
                    points: parts.points,
                    instructions: 0,
                    flags: parts.ends + 2,
                    end: new.len() as int,
                },
            )
            &&& stripped_simple(new) == Some(new)
        }),
{
    let parts = simple_glyph(g)->0;
    let new = stripped_simple(g)->0;
    lemma_stripped_simple_bytes(g);
    lemma_stripped_simple_again(g);
    assert(new.subrange(0, parts.ends) =~= g.subrange(0, parts.ends));
    assert(new.subrange(parts.ends + 2, new.len() as int) =~= g.subrange(parts.flags, parts.end));
    assert(new[0] == g[0] && new[1] == g[1]);
}

/// A simple glyph without its instructions reads as the same glyph without
/// instructions.
pub proof fn lemma_stripped_simple_again(g: Seq<u8>)
    requires
        g.len() >= 2,
        simple_glyph(g) is Some,
    ensures
        simple_glyph(stripped_simple(g)->0) == Some(
            SimpleGlyph {
                ends: simple_glyph(g)->0.ends,
                points: simple_glyph(g)->0.points,
                instructions: 0,
                flags: simple_glyph(g)->0.ends + 2,
                end: stripped_simple(g)->0.len() as int,
            },
        ),
        stripped_simple(stripped_simple(g)->0) == stripped_simple(g),
{
    let parts = simple_glyph(g)->0;
    let new = stripped_simple(g)->0;
    let run = walk_flags(g, parts.flags, parts.points)->0;
    lemma_stripped_simple_bytes(g);
    lemma_walk_flags_bounds(g, parts.flags, parts.points);
    let delta = parts.flags - (parts.ends + 2);
    assert(new[0] == g[0] && new[1] == g[1]);
    assert(u16_at(new, 0) == u16_at(g, 0));
    assert(u16_at(new, parts.ends) == 0);
    if parts.points != 0 {
        assert(new[parts.ends - 2] == g[parts.ends - 2]);
        assert(new[parts.ends - 1] == g[parts.ends - 1]);
        assert(u16_at(new, parts.ends - 2) == u16_at(g, parts.ends - 2));
    }
    assert(run.end + run.coords == parts.end);
    assert forall|k: int| parts.flags <= k < run.end implies new[k - delta] == g[k] by {}
    lemma_walk_flags_moved(g, new, parts.flags, delta, parts.points);
    let again = walk_flags(new, parts.ends + 2, parts.points);
    assert(again == Some(FlagRun { end: run.end - delta, coords: run.coords }));
    assert(run.end - delta + run.coords == new.len());
    let twice = new.subrange(0, parts.ends) + seq![0u8, 0u8] + new.subrange(
        parts.ends + 2,
        new.len() as int,
    );
    assert(twice =~= new);
}

/// A whole simple glyph stays the glyph it is when bytes follow it.
pub proof fn lemma_simple_glyph_extended(g: Seq<u8>, more: Seq<u8>)
    requires
        g.len() >= 2,
        simple_glyph(g) is Some,
    ensures
        simple_glyph(g + more) == simple_glyph(g),
        stripped_simple(g + more) == stripped_simple(g),
{
    let parts = simple_glyph(g)->0;
    let h = g + more;
    lemma_walk_flags_bounds(g, parts.flags, parts.points);
    assert(h[0] == g[0] && h[1] == g[1]);
    assert(h[parts.ends] == g[parts.ends] && h[parts.ends + 1] == g[parts.ends + 1]);
    if parts.points != 0 {
        assert(h[parts.ends - 2] == g[parts.ends - 2]);
        assert(h[parts.ends - 1] == g[parts.ends - 1]);
    }
    lemma_walk_flags_moved(g, h, parts.flags, 0, parts.points);
    assert(h.subrange(0, parts.ends) =~= g.subrange(0, parts.ends));
    assert(h.subrange(parts.flags, parts.end) =~= g.subrange(parts.flags, parts.end));
}

/// The last component of a composite glyph starts where the walk starts or
/// at least six bytes later, and its flag word lies within the glyph.
pub proof fn lemma_last_component_bounds(g: Seq<u8>, pos: int)
    requires
        last_component(g, pos) is Some,
    ensures
        last_component(g, pos)->0 == pos || last_component(g, pos)->0 >= pos + 6,
        0 <= pos,
        last_component(g, pos)->0 + 2 <= g.len(),
        g[last_component(g, pos)->0 + 1] & 0x20 == 0,
    decreases
        (if pos <= g.len() {
            g.len() - pos
        } else {
            0
        }),
{
    if g[pos + 1] & 0x20 != 0 {
        lemma_last_component_bounds(g, pos + component_len(g[pos + 1]));
    }
}

/// The walk through the components only reads the low bytes of the flag
/// words: in bytes that agree with those of the glyph up to the flag word
/// of the last component, but for the high byte of that word, the last
/// component is found at the same place.
pub proof fn lemma_last_component_agrees(g: Seq<u8>, h: Seq<u8>, pos: int)
    requires
        last_component(g, pos) is Some,
        last_component(g, pos)->0 + 2 <= h.len(),
        forall|k: int|
            pos <= k < last_component(g, pos)->0 + 2 && k != last_component(g, pos)->0 ==> h[k]
                == g[k],
    ensures
        last_component(h, pos) == last_component(g, pos),
    decreases
        (if pos <= g.len() {
            g.len() - pos
        } else {
            0
        }),
{
    lemma_last_component_bounds(g, pos);
    let last = last_component(g, pos)->0;
    assert(h[pos + 1] == g[pos + 1]);
    if g[pos + 1] & 0x20 != 0 {
        let next = pos + component_len(g[pos + 1]);
        lemma_last_component_bounds(g, next);
        lemma_last_component_agrees(g, h, next);
    }
}

/// What dehinting keeps of a composite glyph: the head of the glyph, and
/// every byte of every component but the high byte of the flag word of the
/// last, which only loses the bit that announces instructions. The new
/// glyph ends with its last component, and dehinting leaves it as it is.
pub proof fn lemma_stripped_composite(g: Seq<u8>)
    requires
        composite_glyph(g) is Some,
    ensures
        ({
            let parts = composite_glyph(g)->0;
            let new = stripped_composite(g)->0;
            &&& stripped_composite(g) is Some
            &&& GLYPH_HEAD <= parts.last
            &&& new.len() == parts.end
            &&& new.subrange(0, GLYPH_HEAD as int) == g.subrange(0, GLYPH_HEAD as int)
            &&& forall|k: int| 0 <= k < parts.end && k != parts.last ==> new[k] == g[k]
            &&& new[parts.last] == g[parts.last] & 0xfe
            &&& new[parts.last] & 0x01 == 0
            &&& composite_glyph(new) == Some(parts)
            &&& stripped_composite(new) == Some(new)
        }),
{
    let parts = composite_glyph(g)->0;
    let new = stripped_composite(g)->0;
    lemma_last_component_bounds(g, GLYPH_HEAD as int);
    let high = g[parts.last];
    assert(new[parts.last] == high & 0xfe);
    assert((high & 0xfe) & 0x01 == 0) by (bit_vector);
    assert((high & 0xfe) & 0xfe == high & 0xfe) by (bit_vector);
    assert forall|k: int| 0 <= k < parts.end && k != parts.last implies new[k] == g[k] by {}
    assert(new.subrange(0, GLYPH_HEAD as int) =~= g.subrange(0, GLYPH_HEAD as int));
    lemma_last_component_agrees(g, new, GLYPH_HEAD as int);
    assert(new[parts.last + 1] == g[parts.last + 1]);
    assert(stripped_composite(new)->0 =~= new);
}

/// A whole composite glyph stays the glyph it is when bytes follow it.
pub proof fn lemma_composite_glyph_extended(g: Seq<u8>, more: Seq<u8>)
    requires
        composite_glyph(g) is Some,
    ensures
        composite_glyph(g + more) == composite_glyph(g),
        stripped_composite(g + more) == stripped_composite(g),
{
    let parts = composite_glyph(g)->0;
    let h = g + more;
    lemma_last_component_bounds(g, GLYPH_HEAD as int);
    lemma_last_component_extended(g, h, GLYPH_HEAD as int);
    assert(h[parts.last + 1] == g[parts.last + 1]);
    assert(h[parts.last] == g[parts.last]);
    assert(h.subrange(0, parts.last) =~= g.subrange(0, parts.last));
    assert(h.subrange(parts.last + 2, parts.end) =~= g.subrange(parts.last + 2, parts.end));
}

/// The walk through the components of a longer glyph that starts with the
/// bytes of `g` finds the last component where it finds it in `g`.
pub proof fn lemma_last_component_extended(g: Seq<u8>, h: Seq<u8>, pos: int)
    requires
        last_component(g, pos) is Some,
        g.len() <= h.len(),
        forall|k: int| 0 <= k < g.len() ==> h[k] == g[k],
    ensures
        last_component(h, pos) == last_component(g, pos),
    decreases
        (if pos <= g.len() {
            g.len() - pos
        } else {
            0
        }),
{
    lemma_last_component_bounds(g, pos);
    assert(h[pos + 1] == g[pos + 1]);
    if g[pos + 1] & 0x20 != 0 {
        lemma_last_component_extended(g, h, pos + component_len(g[pos + 1]));
    }
}

/// Dehinting twice is dehinting once: a glyph without its instructions is a
/// whole glyph that announces no instructions, and stays as it is.
pub proof fn lemma_stripped_twice(g: Seq<u8>)
    requires
        stripped(g) is Some,
    ensures
        stripped(stripped(g)->0) == stripped(g),
        !carries_instructions(stripped(g)->0),
        !loses_instructions(dehinted(g)),
        dehinted(dehinted(g)) == dehinted(g),
{
    let new = stripped(g)->0;
    if u16_at(g, 0) < 0x8000 {
        lemma_stripped_simple(g);
    } else {
        lemma_stripped_composite(g);
        assert(new[0] == g[0] && new[1] == g[1]);
        assert(u16_at(new, 0) == u16_at(g, 0));
    }
}

/// A whole glyph stays the glyph it is when bytes follow it: it is
/// dehinted to the same bytes, and loses instructions or does not as
/// before.
pub proof fn lemma_stripped_extended(g: Seq<u8>, more: Seq<u8>)
    requires
        stripped(g) is Some,
    ensures
        stripped(g + more) == stripped(g),
        carries_instructions(g + more) == carries_instructions(g),
        dehinted(g + more) == dehinted(g),
        loses_instructions(g + more) == loses_instructions(g),
{
    let h = g + more;
    assert(h[0] == g[0] && h[1] == g[1]);
    if u16_at(g, 0) < 0x8000 {
        lemma_simple_glyph_extended(g, more);
    } else {
        lemma_composite_glyph_extended(g, more);
        lemma_last_component_bounds(g, GLYPH_HEAD as int);
        assert(h[composite_glyph(g)->0.last] == g[composite_glyph(g)->0.last]);
    }
}

} // verus!