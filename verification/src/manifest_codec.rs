//! The doodad manifest text format: a canonical notation with a serializer
//! and a parser that are exact inverses, built from the same primitives as
//! the zone file format.

use vstd::prelude::*;
use crate::codec::{expect_str, parse_bool, parse_opt_props, parse_string, parse_u32, push_bool,
    push_opt_props, push_string, push_u32, spec_dec, spec_ser_bool, spec_ser_opt_props,
    spec_ser_string};
use crate::manifest::{ColorRgba, CubeShapeDefinition, DoodadDefinition, DoodadDefinitionView,
    DoodadManifest, RenderableType, RenderableTypeView, defs_view, strings_view};
use crate::text::{is_digit, lemma_skip_split, lemma_subrange_join, push_str_chars};
use crate::zone_file::{Vec2};

verus! {

/// Canonical rendering of a color.
pub open spec fn spec_ser_color(c: ColorRgba) -> Seq<char> {
    "(r:"@ + spec_dec(c.r as int) + ",g:"@ + spec_dec(c.g as int) + ",b:"@ + spec_dec(c.b as int)
        + ",a:"@ + spec_dec(c.a as int) + ")"@
}

/// Canonical rendering of a two-component vector.
pub open spec fn spec_ser_vec2(v: Vec2) -> Seq<char> {
    "(x:"@ + spec_dec(v.x as int) + ",y:"@ + spec_dec(v.y as int) + ")"@
}

/// Canonical rendering of a cube shape.
pub open spec fn spec_ser_cube(c: CubeShapeDefinition) -> Seq<char> {
    "(color:"@ + spec_ser_color(c.color) + ",wireframe:"@ + spec_ser_bool(c.wireframe) + ")"@
}

/// Canonical rendering of a renderable.
pub open spec fn spec_ser_renderable(r: RenderableTypeView) -> Seq<char> {
    match r {
        RenderableTypeView::GltfModel(p) => "GltfModel("@ + spec_ser_string(p) + ")"@,
        RenderableTypeView::CubeShape(c) => "CubeShape("@ + spec_ser_cube(c) + ")"@,
        RenderableTypeView::MagicFx(n) => "MagicFx("@ + spec_ser_string(n) + ")"@,
        RenderableTypeView::LiquidPlane(n) => "LiquidPlane("@ + spec_ser_string(n) + ")"@,
    }
}

/// Serializes a color onto `out`.
pub fn push_color(out: &mut Vec<char>, c: &ColorRgba)
    ensures
        final(out)@ == old(out)@ + spec_ser_color(*c),
{
    push_str_chars(out, "(r:");
    push_u32(out, c.r as u32);
    push_str_chars(out, ",g:");
    push_u32(out, c.g as u32);
    push_str_chars(out, ",b:");
    push_u32(out, c.b as u32);
    push_str_chars(out, ",a:");
    push_u32(out, c.a as u32);
    push_str_chars(out, ")");
    proof {
        assert(out@ =~= old(out)@ + spec_ser_color(*c));
    }
}

/// Serializes a two-component vector onto `out`.
pub fn push_vec2(out: &mut Vec<char>, v: &Vec2)
    ensures
        final(out)@ == old(out)@ + spec_ser_vec2(*v),
{
    push_str_chars(out, "(x:");
    push_u32(out, v.x);
    push_str_chars(out, ",y:");
    push_u32(out, v.y);
    push_str_chars(out, ")");
    proof {
        assert(out@ =~= old(out)@ + spec_ser_vec2(*v));
    }
}

/// Serializes a cube shape onto `out`.
pub fn push_cube(out: &mut Vec<char>, c: &CubeShapeDefinition)
    ensures
        final(out)@ == old(out)@ + spec_ser_cube(*c),
{
    push_str_chars(out, "(color:");
    push_color(out, &c.color);
    push_str_chars(out, ",wireframe:");
    push_bool(out, c.wireframe);
    push_str_chars(out, ")");
    proof {
        assert(out@ =~= old(out)@ + spec_ser_cube(*c));
    }
}

/// Serializes a renderable onto `out`.
pub fn push_renderable(out: &mut Vec<char>, r: &RenderableType)
    ensures
        final(out)@ == old(out)@ + spec_ser_renderable(r@),
{
    match r {
        RenderableType::GltfModel(p) => {
            push_str_chars(out, "GltfModel(");
            push_string(out, p.as_str());
            push_str_chars(out, ")");
        },
        RenderableType::CubeShape(c) => {
            push_str_chars(out, "CubeShape(");
            push_cube(out, c);
            push_str_chars(out, ")");
        },
        RenderableType::MagicFx(n) => {
            push_str_chars(out, "MagicFx(");
            push_string(out, n.as_str());
            push_str_chars(out, ")");
        },
        RenderableType::LiquidPlane(n) => {
            push_str_chars(out, "LiquidPlane(");
            push_string(out, n.as_str());
            push_str_chars(out, ")");
        },
    }
    proof {
        assert(out@ =~= old(out)@ + spec_ser_renderable(r@));
    }
}

/// The rendering of a color's last two channels.
pub open spec fn spec_ser_color_tail(b: u8, a: u8) -> Seq<char> {
    ",b:"@ + spec_dec(b as int) + ",a:"@ + spec_dec(a as int) + ")"@
}

proof fn lemma_color_tail_positions(s: Seq<char>, i: int, b: u8, a: u8, rest: Seq<char>)
    requires
        0 <= i <= s.len(),
        s.skip(i) == spec_ser_color_tail(b, a) + rest,
    ensures
        ({
            let db = spec_dec(b as int);
            let da = spec_dec(a as int);
            let p1 = i + ",b:"@.len();
            let p2 = p1 + db.len();
            let p3 = p2 + ",a:"@.len();
            let p4 = p3 + da.len();
            let p5 = p4 + ")"@.len();
            &&& p5 <= s.len()
            &&& p5 == i + spec_ser_color_tail(b, a).len()
            &&& s.subrange(i, p1) == ",b:"@
            &&& s.skip(p1) == db + s.skip(p2)
            &&& s.subrange(p2, p3) == ",a:"@
            &&& s.skip(p3) == da + s.skip(p4)
            &&& s.subrange(p4, p5) == ")"@
            &&& s.skip(p5) == rest
            &&& !is_digit(s[p2])
            &&& !is_digit(s[p4])
        }),
{
    reveal_strlit(",b:");
    reveal_strlit(",a:");
    reveal_strlit(")");
    let db = spec_dec(b as int);
    let da = spec_dec(a as int);
    let t1 = db + (",a:"@ + (da + (")"@ + rest)));
    assert(s.skip(i) =~= ",b:"@ + t1);
    lemma_skip_split(s, i, ",b:"@, t1);
    let p1 = i + ",b:"@.len();
    lemma_skip_split(s, p1, db, ",a:"@ + (da + (")"@ + rest)));
    let p2 = p1 + db.len();
    lemma_skip_split(s, p2, ",a:"@, da + (")"@ + rest));
    let p3 = p2 + ",a:"@.len();
    lemma_skip_split(s, p3, da, ")"@ + rest);
    let p4 = p3 + da.len();
    lemma_skip_split(s, p4, ")"@, rest);
    assert(s[p2] == ',') by {
        assert(s.subrange(p2, p3)[0] == s[p2]);
    }
    assert(s[p4] == ')') by {
        assert(s.subrange(p4, p4 + 1)[0] == s[p4]);
    }
}

/// Parses a color's last two channels and the closing parenthesis.
#[verifier::rlimit(100)]
#[verifier::spinoff_prover]
fn parse_color_tail(s: &Vec<char>, i: usize) -> (r: Option<(u8, u8, usize)>)
    requires
        i <= s@.len(),
    ensures
        r matches Some((b, a, j)) ==> i < j <= s@.len() && s@.subrange(i as int, j as int)
            == spec_ser_color_tail(b, a),
        forall|b: u8, a: u8, rest: Seq<char>|
            s@.skip(i as int) == #[trigger] (spec_ser_color_tail(b, a) + rest) ==> (r matches Some(
                (b2, a2, j),
            ) && b2 == b && a2 == a && j == i + spec_ser_color_tail(b, a).len()),
{
    let j1 = match expect_str(s, i, ",b:") {
        Some(j) => j,
        None => {
            proof {
                assert forall|b: u8, a: u8, rest: Seq<char>|
                    s@.skip(i as int) == #[trigger] (spec_ser_color_tail(b, a) + rest) implies false by {
                    lemma_color_tail_positions(s@, i as int, b, a, rest);
                }
            }
            return None;
        },
    };
    let (bv, j2) = match parse_u32(s, j1) {
        Some(p) => p,
        None => {
            proof {
                assert forall|b: u8, a: u8, rest: Seq<char>|
                    s@.skip(i as int) == #[trigger] (spec_ser_color_tail(b, a) + rest) implies false by {
                    lemma_color_tail_positions(s@, i as int, b, a, rest);
                }
            }
            return None;
        },
    };
    let j3 = match expect_str(s, j2, ",a:") {
        Some(j) => j,
        None => {
            proof {
                assert forall|b: u8, a: u8, rest: Seq<char>|
                    s@.skip(i as int) == #[trigger] (spec_ser_color_tail(b, a) + rest) implies false by {
                    lemma_color_tail_positions(s@, i as int, b, a, rest);
                }
            }
            return None;
        },
    };
    let (av, j4) = match parse_u32(s, j3) {
        Some(p) => p,
        None => {
            proof {
                assert forall|b: u8, a: u8, rest: Seq<char>|
                    s@.skip(i as int) == #[trigger] (spec_ser_color_tail(b, a) + rest) implies false by {
                    lemma_color_tail_positions(s@, i as int, b, a, rest);
                }
            }
            return None;
        },
    };
    let j5 = match expect_str(s, j4, ")") {
        Some(j) => j,
        None => {
            proof {
                assert forall|b: u8, a: u8, rest: Seq<char>|
                    s@.skip(i as int) == #[trigger] (spec_ser_color_tail(b, a) + rest) implies false by {
                    lemma_color_tail_positions(s@, i as int, b, a, rest);
                }
            }
            return None;
        },
    };
    if bv > 255 || av > 255 {
        proof {
            assert forall|b: u8, a: u8, rest: Seq<char>|
                s@.skip(i as int) == #[trigger] (spec_ser_color_tail(b, a) + rest) implies false by {
                lemma_color_tail_positions(s@, i as int, b, a, rest);
            }
        }
        return None;
    }
    let b8 = bv as u8;
    let a8 = av as u8;
    proof {
        lemma_subrange_join(s@, i as int, j1 as int, j2 as int);
        lemma_subrange_join(s@, i as int, j2 as int, j3 as int);
        lemma_subrange_join(s@, i as int, j3 as int, j4 as int);
        lemma_subrange_join(s@, i as int, j4 as int, j5 as int);
        assert(s@.subrange(i as int, j5 as int) == spec_ser_color_tail(b8, a8));
        assert forall|b: u8, a: u8, rest: Seq<char>|
            s@.skip(i as int) == #[trigger] (spec_ser_color_tail(b, a) + rest) implies (b8 == b
            && a8 == a && j5 == i + spec_ser_color_tail(b, a).len()) by {
            lemma_color_tail_positions(s@, i as int, b, a, rest);
        }
    }
    Some((b8, a8, j5))
}

/// Where the first half of a serialized color stands in the input.
proof fn lemma_color_head_positions(s: Seq<char>, i: int, c: ColorRgba, rest: Seq<char>)
    requires
        0 <= i <= s.len(),
        s.skip(i) == spec_ser_color(c) + rest,
    ensures
        ({
            let dr = spec_dec(c.r as int);
            let dg = spec_dec(c.g as int);
            let p1 = i + "(r:"@.len();
            let p2 = p1 + dr.len();
            let p3 = p2 + ",g:"@.len();
            let p4 = p3 + dg.len();
            &&& p4 <= s.len()
            &&& p4 + spec_ser_color_tail(c.b, c.a).len() == i + spec_ser_color(c).len()
            &&& s.subrange(i, p1) == "(r:"@
            &&& s.skip(p1) == dr + s.skip(p2)
            &&& s.subrange(p2, p3) == ",g:"@
            &&& s.skip(p3) == dg + s.skip(p4)
            &&& s.skip(p4) == spec_ser_color_tail(c.b, c.a) + rest
            &&& !is_digit(s[p2])
            &&& !is_digit(s[p4])
        }),
{
    reveal_strlit("(r:");
    reveal_strlit(",g:");
    reveal_strlit(",b:");
    let dr = spec_dec(c.r as int);
    let dg = spec_dec(c.g as int);
    let tail = spec_ser_color_tail(c.b, c.a);
    let t1 = dr + (",g:"@ + (dg + (tail + rest)));
    assert(s.skip(i) =~= "(r:"@ + t1);
    lemma_skip_split(s, i, "(r:"@, t1);
    let p1 = i + "(r:"@.len();
    lemma_skip_split(s, p1, dr, ",g:"@ + (dg + (tail + rest)));
    let p2 = p1 + dr.len();
    lemma_skip_split(s, p2, ",g:"@, dg + (tail + rest));
    let p3 = p2 + ",g:"@.len();
    lemma_skip_split(s, p3, dg, tail + rest);
    let p4 = p3 + dg.len();
    assert(s[p2] == ',') by {
        assert(s.subrange(p2, p3)[0] == s[p2]);
    }
    assert(s.skip(p4) =~= ",b:"@ + (spec_dec(c.b as int) + (",a:"@ + (spec_dec(c.a as int) + (
    ")"@ + rest)))));
    lemma_skip_split(s, p4, ",b:"@, spec_dec(c.b as int) + (",a:"@ + (spec_dec(c.a as int) + (
    ")"@ + rest))));
    assert(s[p4] == ',') by {
        assert(s.subrange(p4, p4 + ",b:"@.len())[0] == s[p4]);
    }
}

/// Parses a serialized color, sound and complete for canonical renderings.
#[verifier::rlimit(100)]
#[verifier::spinoff_prover]
pub fn parse_color(s: &Vec<char>, i: usize) -> (r: Option<(ColorRgba, usize)>)
    requires
        i <= s@.len(),
    ensures
        r matches Some((c, j)) ==> i < j <= s@.len() && s@.subrange(i as int, j as int)
            == spec_ser_color(c),
        forall|c: ColorRgba, rest: Seq<char>|
            s@.skip(i as int) == #[trigger] (spec_ser_color(c) + rest) ==> (r matches Some((w, j))
                && w == c && j == i + spec_ser_color(c).len()),
{
    let j1 = match expect_str(s, i, "(r:") {
        Some(j) => j,
        None => {
            proof {
                assert forall|c: ColorRgba, rest: Seq<char>|
                    s@.skip(i as int) == #[trigger] (spec_ser_color(c) + rest) implies false by {
                    lemma_color_head_positions(s@, i as int, c, rest);
                }
            }
            return None;
        },
    };
    let (rv, j2) = match parse_u32(s, j1) {
        Some(p) => p,
        None => {
            proof {
                assert forall|c: ColorRgba, rest: Seq<char>|
                    s@.skip(i as int) == #[trigger] (spec_ser_color(c) + rest) implies false by {
                    lemma_color_head_positions(s@, i as int, c, rest);
                }
            }
            return None;
        },
    };
    let j3 = match expect_str(s, j2, ",g:") {
        Some(j) => j,
        None => {
            proof {
                assert forall|c: ColorRgba, rest: Seq<char>|
                    s@.skip(i as int) == #[trigger] (spec_ser_color(c) + rest) implies false by {
                    lemma_color_head_positions(s@, i as int, c, rest);
                }
            }
            return None;
        },
    };
    let (gv, j4) = match parse_u32(s, j3) {
        Some(p) => p,
        None => {
            proof {
                assert forall|c: ColorRgba, rest: Seq<char>|
                    s@.skip(i as int) == #[trigger] (spec_ser_color(c) + rest) implies false by {
                    lemma_color_head_positions(s@, i as int, c, rest);
                }
            }
            return None;
        },
    };
    let (b8, a8, j5) = match parse_color_tail(s, j4) {
        Some(p) => p,
        None => {
            proof {
                assert forall|c: ColorRgba, rest: Seq<char>|
                    s@.skip(i as int) == #[trigger] (spec_ser_color(c) + rest) implies false by {
                    lemma_color_head_positions(s@, i as int, c, rest);
                }
            }
            return None;
        },
    };
    if rv > 255 || gv > 255 {
        proof {
            assert forall|c: ColorRgba, rest: Seq<char>|
                s@.skip(i as int) == #[trigger] (spec_ser_color(c) + rest) implies false by {
                lemma_color_head_positions(s@, i as int, c, rest);
            }
        }
        return None;
    }
    let w = ColorRgba { r: rv as u8, g: gv as u8, b: b8, a: a8 };
    proof {
        lemma_subrange_join(s@, i as int, j1 as int, j2 as int);
        lemma_subrange_join(s@, i as int, j2 as int, j3 as int);
        lemma_subrange_join(s@, i as int, j3 as int, j4 as int);
        lemma_subrange_join(s@, i as int, j4 as int, j5 as int);
        assert(s@.subrange(i as int, j5 as int) =~= spec_ser_color(w));
        assert forall|c: ColorRgba, rest: Seq<char>|
            s@.skip(i as int) == #[trigger] (spec_ser_color(c) + rest) implies (w == c && j5 == i
            + spec_ser_color(c).len()) by {
            lemma_color_head_positions(s@, i as int, c, rest);
        }
    }
    Some((w, j5))
}

/// Where each part of a serialized two-component vector stands.
proof fn lemma_vec2_positions(s: Seq<char>, i: int, v: Vec2, rest: Seq<char>)
    requires
        0 <= i <= s.len(),
        s.skip(i) == spec_ser_vec2(v) + rest,
    ensures
        ({
            let dx = spec_dec(v.x as int);
            let dy = spec_dec(v.y as int);
            let p1 = i + "(x:"@.len();
            let p2 = p1 + dx.len();
            let p3 = p2 + ",y:"@.len();
            let p4 = p3 + dy.len();
            let p5 = p4 + ")"@.len();
            &&& p5 <= s.len()
            &&& p5 == i + spec_ser_vec2(v).len()
            &&& s.subrange(i, p1) == "(x:"@
            &&& s.skip(p1) == dx + s.skip(p2)
            &&& s.subrange(p2, p3) == ",y:"@
            &&& s.skip(p3) == dy + s.skip(p4)
            &&& s.subrange(p4, p5) == ")"@
            &&& s.skip(p5) == rest
            &&& !is_digit(s[p2])
            &&& !is_digit(s[p4])
        }),
{
    reveal_strlit("(x:");
    reveal_strlit(",y:");
    reveal_strlit(")");
    let dx = spec_dec(v.x as int);
    let dy = spec_dec(v.y as int);
    let t1 = dx + (",y:"@ + (dy + (")"@ + rest)));
    assert(s.skip(i) =~= "(x:"@ + t1);
    lemma_skip_split(s, i, "(x:"@, t1);
    let p1 = i + "(x:"@.len();
    lemma_skip_split(s, p1, dx, ",y:"@ + (dy + (")"@ + rest)));
    let p2 = p1 + dx.len();
    lemma_skip_split(s, p2, ",y:"@, dy + (")"@ + rest));
    let p3 = p2 + ",y:"@.len();
    lemma_skip_split(s, p3, dy, ")"@ + rest);
    let p4 = p3 + dy.len();
    lemma_skip_split(s, p4, ")"@, rest);
    assert(s[p2] == ',') by {
        assert(s.subrange(p2, p3)[0] == s[p2]);
    }
    assert(s[p4] == ')') by {
        assert(s.subrange(p4, p4 + 1)[0] == s[p4]);
    }
}

/// Parses a serialized two-component vector.
#[verifier::rlimit(60)]
pub fn parse_vec2(s: &Vec<char>, i: usize) -> (r: Option<(Vec2, usize)>)
    requires
        i <= s@.len(),
    ensures
        r matches Some((v, j)) ==> i < j <= s@.len() && s@.subrange(i as int, j as int)
            == spec_ser_vec2(v),
        forall|v: Vec2, rest: Seq<char>|
            s@.skip(i as int) == #[trigger] (spec_ser_vec2(v) + rest) ==> (r matches Some((w, j))
                && w == v && j == i + spec_ser_vec2(v).len()),
{
    let j1 = match expect_str(s, i, "(x:") {
        Some(j) => j,
        None => {
            proof {
                assert forall|v: Vec2, rest: Seq<char>|
                    s@.skip(i as int) == #[trigger] (spec_ser_vec2(v) + rest) implies false by {
                    lemma_vec2_positions(s@, i as int, v, rest);
                }
            }
            return None;
        },
    };
    let (x, j2) = match parse_u32(s, j1) {
        Some(p) => p,
        None => {
            proof {
                assert forall|v: Vec2, rest: Seq<char>|
                    s@.skip(i as int) == #[trigger] (spec_ser_vec2(v) + rest) implies false by {
                    lemma_vec2_positions(s@, i as int, v, rest);
                }
            }
            return None;
        },
    };
    let j3 = match expect_str(s, j2, ",y:") {
        Some(j) => j,
        None => {
            proof {
                assert forall|v: Vec2, rest: Seq<char>|
                    s@.skip(i as int) == #[trigger] (spec_ser_vec2(v) + rest) implies false by {
                    lemma_vec2_positions(s@, i as int, v, rest);
                }
            }
            return None;
        },
    };
    let (y, j4) = match parse_u32(s, j3) {
        Some(p) => p,
        None => {
            proof {
                assert forall|v: Vec2, rest: Seq<char>|
                    s@.skip(i as int) == #[trigger] (spec_ser_vec2(v) + rest) implies false by {
                    lemma_vec2_positions(s@, i as int, v, rest);
                }
            }
            return None;
        },
    };
    let j5 = match expect_str(s, j4, ")") {
        Some(j) => j,
        None => {
            proof {
                assert forall|v: Vec2, rest: Seq<char>|
                    s@.skip(i as int) == #[trigger] (spec_ser_vec2(v) + rest) implies false by {
                    lemma_vec2_positions(s@, i as int, v, rest);
                }
            }
            return None;
        },
    };
    let w = Vec2 { x, y };
    proof {
        lemma_subrange_join(s@, i as int, j1 as int, j2 as int);
        lemma_subrange_join(s@, i as int, j2 as int, j3 as int);
        lemma_subrange_join(s@, i as int, j3 as int, j4 as int);
        lemma_subrange_join(s@, i as int, j4 as int, j5 as int);
        assert(s@.subrange(i as int, j5 as int) == spec_ser_vec2(w));
        assert forall|v: Vec2, rest: Seq<char>|
            s@.skip(i as int) == #[trigger] (spec_ser_vec2(v) + rest) implies (w == v && j5 == i
            + spec_ser_vec2(v).len()) by {
            lemma_vec2_positions(s@, i as int, v, rest);
        }
    }
    Some((w, j5))
}

/// Where each part of a serialized cube shape stands in the input.
proof fn lemma_cube_positions(s: Seq<char>, i: int, c: CubeShapeDefinition, rest: Seq<char>)
    requires
        0 <= i <= s.len(),
        s.skip(i) == spec_ser_cube(c) + rest,
    ensures
        ({
            let sc = spec_ser_color(c.color);
            let sw = spec_ser_bool(c.wireframe);
            let p1 = i + "(color:"@.len();
            let p2 = p1 + sc.len();
            let p3 = p2 + ",wireframe:"@.len();
            let p4 = p3 + sw.len();
            let p5 = p4 + ")"@.len();
            &&& p5 <= s.len()
            &&& p5 == i + spec_ser_cube(c).len()
            &&& s.subrange(i, p1) == "(color:"@
            &&& s.skip(p1) == sc + s.skip(p2)
            &&& s.subrange(p2, p3) == ",wireframe:"@
            &&& s.skip(p3) == sw + s.skip(p4)
            &&& s.subrange(p4, p5) == ")"@
            &&& s.skip(p5) == rest
        }),
{
    let sc = spec_ser_color(c.color);
    let sw = spec_ser_bool(c.wireframe);
    let t1 = sc + (",wireframe:"@ + (sw + (")"@ + rest)));
    assert(s.skip(i) =~= "(color:"@ + t1);
    lemma_skip_split(s, i, "(color:"@, t1);
    let p1 = i + "(color:"@.len();
    lemma_skip_split(s, p1, sc, ",wireframe:"@ + (sw + (")"@ + rest)));
    let p2 = p1 + sc.len();
    lemma_skip_split(s, p2, ",wireframe:"@, sw + (")"@ + rest));
    let p3 = p2 + ",wireframe:"@.len();
    lemma_skip_split(s, p3, sw, ")"@ + rest);
    let p4 = p3 + sw.len();
    lemma_skip_split(s, p4, ")"@, rest);
}

/// Parses a serialized cube shape.
#[verifier::rlimit(100)]
#[verifier::spinoff_prover]
pub fn parse_cube(s: &Vec<char>, i: usize) -> (r: Option<(CubeShapeDefinition, usize)>)
    requires
        i <= s@.len(),
    ensures
        r matches Some((c, j)) ==> i < j <= s@.len() && s@.subrange(i as int, j as int)
            == spec_ser_cube(c),
        forall|c: CubeShapeDefinition, rest: Seq<char>|
            s@.skip(i as int) == #[trigger] (spec_ser_cube(c) + rest) ==> (r matches Some((w, j))
                && w == c && j == i + spec_ser_cube(c).len()),
{
    let j1 = match expect_str(s, i, "(color:") {
        Some(j) => j,
        None => {
            proof {
                assert forall|c: CubeShapeDefinition, rest: Seq<char>|
                    s@.skip(i as int) == #[trigger] (spec_ser_cube(c) + rest) implies false by {
                    lemma_cube_positions(s@, i as int, c, rest);
                }
            }
            return None;
        },
    };
    let (color, j2) = match parse_color(s, j1) {
        Some(p) => p,
        None => {
            proof {
                assert forall|c: CubeShapeDefinition, rest: Seq<char>|
                    s@.skip(i as int) == #[trigger] (spec_ser_cube(c) + rest) implies false by {
                    lemma_cube_positions(s@, i as int, c, rest);
                }
            }
            return None;
        },
    };
    let j3 = match expect_str(s, j2, ",wireframe:") {
        Some(j) => j,
        None => {
            proof {
                assert forall|c: CubeShapeDefinition, rest: Seq<char>|
                    s@.skip(i as int) == #[trigger] (spec_ser_cube(c) + rest) implies false by {
                    lemma_cube_positions(s@, i as int, c, rest);
                }
            }
            return None;
        },
    };
    let (wireframe, j4) = match parse_bool(s, j3) {
        Some(p) => p,
        None => {
            proof {
                assert forall|c: CubeShapeDefinition, rest: Seq<char>|
                    s@.skip(i as int) == #[trigger] (spec_ser_cube(c) + rest) implies false by {
                    lemma_cube_positions(s@, i as int, c, rest);
                    assert(s@.skip(j3 as int) == spec_ser_bool(c.wireframe) + s@.skip(
                        j3 + spec_ser_bool(c.wireframe).len(),
                    ));
                }
            }
            return None;
        },
    };
    let j5 = match expect_str(s, j4, ")") {
        Some(j) => j,
        None => {
            proof {
                assert forall|c: CubeShapeDefinition, rest: Seq<char>|
                    s@.skip(i as int) == #[trigger] (spec_ser_cube(c) + rest) implies false by {
                    lemma_cube_positions(s@, i as int, c, rest);
                    assert(s@.skip(j3 as int) == spec_ser_bool(c.wireframe) + s@.skip(
                        j3 + spec_ser_bool(c.wireframe).len(),
                    ));
                }
            }
            return None;
        },
    };
    let w = CubeShapeDefinition { color, wireframe };
    proof {
        lemma_subrange_join(s@, i as int, j1 as int, j2 as int);
        lemma_subrange_join(s@, i as int, j2 as int, j3 as int);
        lemma_subrange_join(s@, i as int, j3 as int, j4 as int);
        lemma_subrange_join(s@, i as int, j4 as int, j5 as int);
        assert(s@.subrange(i as int, j5 as int) == spec_ser_cube(w));
        assert forall|c: CubeShapeDefinition, rest: Seq<char>|
            s@.skip(i as int) == #[trigger] (spec_ser_cube(c) + rest) implies (w == c && j5 == i
            + spec_ser_cube(c).len()) by {
            lemma_cube_positions(s@, i as int, c, rest);
            assert(s@.skip(j3 as int) == spec_ser_bool(c.wireframe) + s@.skip(
                j3 + spec_ser_bool(c.wireframe).len(),
            ));
        }
    }
    Some((w, j5))
}

/// Where a serialized renderable stands in the input, and which tag
/// character it starts with.
proof fn lemma_renderable_positions(s: Seq<char>, i: int, r: RenderableTypeView, rest: Seq<char>)
    requires
        0 <= i <= s.len(),
        s.skip(i) == spec_ser_renderable(r) + rest,
    ensures
        i < s.len(),
        i + spec_ser_renderable(r).len() <= s.len(),
        s.skip(i + spec_ser_renderable(r).len()) == rest,
        match r {
            RenderableTypeView::GltfModel(p) => {
                let p1 = i + "GltfModel("@.len();
                let p2 = p1 + spec_ser_string(p).len();
                &&& s[i] == 'G'
                &&& s.subrange(i, p1) == "GltfModel("@
                &&& s.skip(p1) == spec_ser_string(p) + s.skip(p2)
                &&& s.subrange(p2, p2 + 1) == ")"@
            },
            RenderableTypeView::CubeShape(c) => {
                let p1 = i + "CubeShape("@.len();
                let p2 = p1 + spec_ser_cube(c).len();
                &&& s[i] == 'C'
                &&& s.subrange(i, p1) == "CubeShape("@
                &&& s.skip(p1) == spec_ser_cube(c) + s.skip(p2)
                &&& s.subrange(p2, p2 + 1) == ")"@
            },
            RenderableTypeView::MagicFx(n) => {
                let p1 = i + "MagicFx("@.len();
                let p2 = p1 + spec_ser_string(n).len();
                &&& s[i] == 'M'
                &&& s.subrange(i, p1) == "MagicFx("@
                &&& s.skip(p1) == spec_ser_string(n) + s.skip(p2)
                &&& s.subrange(p2, p2 + 1) == ")"@
            },
            RenderableTypeView::LiquidPlane(n) => {
                let p1 = i + "LiquidPlane("@.len();
                let p2 = p1 + spec_ser_string(n).len();
                &&& s[i] == 'L'
                &&& s.subrange(i, p1) == "LiquidPlane("@
                &&& s.skip(p1) == spec_ser_string(n) + s.skip(p2)
                &&& s.subrange(p2, p2 + 1) == ")"@
            },
        },
{
    reveal_strlit("GltfModel(");
    reveal_strlit("CubeShape(");
    reveal_strlit("MagicFx(");
    reveal_strlit("LiquidPlane(");
    reveal_strlit(")");
    match r {
        RenderableTypeView::GltfModel(p) => {
            let body = spec_ser_string(p);
            let t1 = body + (")"@ + rest);
            assert(s.skip(i) =~= "GltfModel("@ + t1);
            lemma_skip_split(s, i, "GltfModel("@, t1);
            let p1 = i + "GltfModel("@.len();
            lemma_skip_split(s, p1, body, ")"@ + rest);
            lemma_skip_split(s, p1 + body.len(), ")"@, rest);
            assert(s[i] == 'G') by {
                assert(s.subrange(i, p1)[0] == s[i]);
            }
        },
        RenderableTypeView::CubeShape(c) => {
            let body = spec_ser_cube(c);
            let t1 = body + (")"@ + rest);
            assert(s.skip(i) =~= "CubeShape("@ + t1);
            lemma_skip_split(s, i, "CubeShape("@, t1);
            let p1 = i + "CubeShape("@.len();
            lemma_skip_split(s, p1, body, ")"@ + rest);
            lemma_skip_split(s, p1 + body.len(), ")"@, rest);
            assert(s[i] == 'C') by {
                assert(s.subrange(i, p1)[0] == s[i]);
            }
        },
        RenderableTypeView::MagicFx(n) => {
            let body = spec_ser_string(n);
            let t1 = body + (")"@ + rest);
            assert(s.skip(i) =~= "MagicFx("@ + t1);
            lemma_skip_split(s, i, "MagicFx("@, t1);
            let p1 = i + "MagicFx("@.len();
            lemma_skip_split(s, p1, body, ")"@ + rest);
            lemma_skip_split(s, p1 + body.len(), ")"@, rest);
            assert(s[i] == 'M') by {
                assert(s.subrange(i, p1)[0] == s[i]);
            }
        },
        RenderableTypeView::LiquidPlane(n) => {
            let body = spec_ser_string(n);
            let t1 = body + (")"@ + rest);
            assert(s.skip(i) =~= "LiquidPlane("@ + t1);
            lemma_skip_split(s, i, "LiquidPlane("@, t1);
            let p1 = i + "LiquidPlane("@.len();
            lemma_skip_split(s, p1, body, ")"@ + rest);
            lemma_skip_split(s, p1 + body.len(), ")"@, rest);
            assert(s[i] == 'L') by {
                assert(s.subrange(i, p1)[0] == s[i]);
            }
        },
    }
}

/// The first character of each renderable tag tells the variants apart.
proof fn lemma_renderable_first_char(
    s: Seq<char>,
    i: int,
    r: RenderableTypeView,
    rest: Seq<char>,
    c: char,
)
    requires
        0 <= i <= s.len(),
        s.skip(i) == spec_ser_renderable(r) + rest,
        s[i] == c,
    ensures
        c == 'G' ==> r is GltfModel,
        c == 'C' ==> r is CubeShape,
        c == 'M' ==> r is MagicFx,
        c == 'L' ==> r is LiquidPlane,
{
    lemma_renderable_positions(s, i, r, rest);
}

/// Parses a serialized renderable.
#[verifier::rlimit(100)]
#[verifier::spinoff_prover]
pub fn parse_renderable(s: &Vec<char>, i: usize) -> (r: Option<(RenderableType, usize)>)
    requires
        i <= s@.len(),
    ensures
        r matches Some((v, j)) ==> i < j <= s@.len() && s@.subrange(i as int, j as int)
            == spec_ser_renderable(v@),
        forall|v: RenderableTypeView, rest: Seq<char>|
            s@.skip(i as int) == #[trigger] (spec_ser_renderable(v) + rest) ==> (r matches Some(
                (w, j),
            ) && w@ == v && j == i + spec_ser_renderable(v).len()),
{
    proof {
        reveal_strlit("GltfModel(");
        reveal_strlit("CubeShape(");
        reveal_strlit("MagicFx(");
        reveal_strlit("LiquidPlane(");
        reveal_strlit(")");
    }
    let len = s.len();
    if i >= len {
        proof {
            assert forall|v: RenderableTypeView, rest: Seq<char>|
                s@.skip(i as int) == #[trigger] (spec_ser_renderable(v) + rest) implies false by {
                lemma_renderable_positions(s@, i as int, v, rest);
            }
        }
        return None;
    }
    let c = s[i];
    if c == 'G' {
        let j1 = match expect_str(s, i, "GltfModel(") {
            Some(j) => j,
            None => {
                proof {
                    assert forall|v: RenderableTypeView, rest: Seq<char>|
                        s@.skip(i as int) == #[trigger] (spec_ser_renderable(v) + rest) implies false by {
                        lemma_renderable_positions(s@, i as int, v, rest);
                        lemma_renderable_first_char(s@, i as int, v, rest, c);
                    }
                }
                return None;
            },
        };
        let (p, j2) = match parse_string(s, j1) {
            Some(q) => q,
            None => {
                proof {
                    assert forall|v: RenderableTypeView, rest: Seq<char>|
                        s@.skip(i as int) == #[trigger] (spec_ser_renderable(v) + rest) implies false by {
                        lemma_renderable_positions(s@, i as int, v, rest);
                        lemma_renderable_first_char(s@, i as int, v, rest, c);
                    }
                }
                return None;
            },
        };
        let j3 = match expect_str(s, j2, ")") {
            Some(j) => j,
            None => {
                proof {
                    assert forall|v: RenderableTypeView, rest: Seq<char>|
                        s@.skip(i as int) == #[trigger] (spec_ser_renderable(v) + rest) implies false by {
                        lemma_renderable_positions(s@, i as int, v, rest);
                        lemma_renderable_first_char(s@, i as int, v, rest, c);
                    }
                }
                return None;
            },
        };
        let w = RenderableType::GltfModel(p);
        proof {
            lemma_subrange_join(s@, i as int, j1 as int, j2 as int);
            lemma_subrange_join(s@, i as int, j2 as int, j3 as int);
            assert(s@.subrange(i as int, j3 as int) == spec_ser_renderable(w@));
            assert forall|v: RenderableTypeView, rest: Seq<char>|
                s@.skip(i as int) == #[trigger] (spec_ser_renderable(v) + rest) implies (w@ == v
                && j3 == i + spec_ser_renderable(v).len()) by {
                lemma_renderable_positions(s@, i as int, v, rest);
                lemma_renderable_first_char(s@, i as int, v, rest, c);
            }
        }
        Some((w, j3))
    } else if c == 'C' {
        let j1 = match expect_str(s, i, "CubeShape(") {
            Some(j) => j,
            None => {
                proof {
                    assert forall|v: RenderableTypeView, rest: Seq<char>|
                        s@.skip(i as int) == #[trigger] (spec_ser_renderable(v) + rest) implies false by {
                        lemma_renderable_positions(s@, i as int, v, rest);
                        lemma_renderable_first_char(s@, i as int, v, rest, c);
                    }
                }
                return None;
            },
        };
        let (cube, j2) = match parse_cube(s, j1) {
            Some(q) => q,
            None => {
                proof {
                    assert forall|v: RenderableTypeView, rest: Seq<char>|
                        s@.skip(i as int) == #[trigger] (spec_ser_renderable(v) + rest) implies false by {
                        lemma_renderable_positions(s@, i as int, v, rest);
                        lemma_renderable_first_char(s@, i as int, v, rest, c);
                    }
                }
                return None;
            },
        };
        let j3 = match expect_str(s, j2, ")") {
            Some(j) => j,
            None => {
                proof {
                    assert forall|v: RenderableTypeView, rest: Seq<char>|
                        s@.skip(i as int) == #[trigger] (spec_ser_renderable(v) + rest) implies false by {
                        lemma_renderable_positions(s@, i as int, v, rest);
                        lemma_renderable_first_char(s@, i as int, v, rest, c);
                    }
                }
                return None;
            },
        };
        let w = RenderableType::CubeShape(cube);
        proof {
            lemma_subrange_join(s@, i as int, j1 as int, j2 as int);
            lemma_subrange_join(s@, i as int, j2 as int, j3 as int);
            assert(s@.subrange(i as int, j3 as int) == spec_ser_renderable(w@));
            assert forall|v: RenderableTypeView, rest: Seq<char>|
                s@.skip(i as int) == #[trigger] (spec_ser_renderable(v) + rest) implies (w@ == v
                && j3 == i + spec_ser_renderable(v).len()) by {
                lemma_renderable_positions(s@, i as int, v, rest);
                lemma_renderable_first_char(s@, i as int, v, rest, c);
            }
        }
        Some((w, j3))
    } else if c == 'M' {
        let j1 = match expect_str(s, i, "MagicFx(") {
            Some(j) => j,
            None => {
                proof {
                    assert forall|v: RenderableTypeView, rest: Seq<char>|
                        s@.skip(i as int) == #[trigger] (spec_ser_renderable(v) + rest) implies false by {
                        lemma_renderable_positions(s@, i as int, v, rest);
                        lemma_renderable_first_char(s@, i as int, v, rest, c);
                    }
                }
                return None;
            },
        };
        let (n, j2) = match parse_string(s, j1) {
            Some(q) => q,
            None => {
                proof {
                    assert forall|v: RenderableTypeView, rest: Seq<char>|
                        s@.skip(i as int) == #[trigger] (spec_ser_renderable(v) + rest) implies false by {
                        lemma_renderable_positions(s@, i as int, v, rest);
                        lemma_renderable_first_char(s@, i as int, v, rest, c);
                    }
                }
                return None;
            },
        };
        let j3 = match expect_str(s, j2, ")") {
            Some(j) => j,
            None => {
                proof {
                    assert forall|v: RenderableTypeView, rest: Seq<char>|
                        s@.skip(i as int) == #[trigger] (spec_ser_renderable(v) + rest) implies false by {
                        lemma_renderable_positions(s@, i as int, v, rest);
                        lemma_renderable_first_char(s@, i as int, v, rest, c);
                    }
                }
                return None;
            },
        };
        let w = RenderableType::MagicFx(n);
        proof {
            lemma_subrange_join(s@, i as int, j1 as int, j2 as int);
            lemma_subrange_join(s@, i as int, j2 as int, j3 as int);
            assert(s@.subrange(i as int, j3 as int) == spec_ser_renderable(w@));
            assert forall|v: RenderableTypeView, rest: Seq<char>|
                s@.skip(i as int) == #[trigger] (spec_ser_renderable(v) + rest) implies (w@ == v
                && j3 == i + spec_ser_renderable(v).len()) by {
                lemma_renderable_positions(s@, i as int, v, rest);
                lemma_renderable_first_char(s@, i as int, v, rest, c);
            }
        }
        Some((w, j3))
    } else if c == 'L' {
        let j1 = match expect_str(s, i, "LiquidPlane(") {
            Some(j) => j,
            None => {
                proof {
                    assert forall|v: RenderableTypeView, rest: Seq<char>|
                        s@.skip(i as int) == #[trigger] (spec_ser_renderable(v) + rest) implies false by {
                        lemma_renderable_positions(s@, i as int, v, rest);
                        lemma_renderable_first_char(s@, i as int, v, rest, c);
                    }
                }
                return None;
            },
        };
        let (n, j2) = match parse_string(s, j1) {
            Some(q) => q,
            None => {
                proof {
                    assert forall|v: RenderableTypeView, rest: Seq<char>|
                        s@.skip(i as int) == #[trigger] (spec_ser_renderable(v) + rest) implies false by {
                        lemma_renderable_positions(s@, i as int, v, rest);
                        lemma_renderable_first_char(s@, i as int, v, rest, c);
                    }
                }
                return None;
            },
        };
        let j3 = match expect_str(s, j2, ")") {
            Some(j) => j,
            None => {
                proof {
                    assert forall|v: RenderableTypeView, rest: Seq<char>|
                        s@.skip(i as int) == #[trigger] (spec_ser_renderable(v) + rest) implies false by {
                        lemma_renderable_positions(s@, i as int, v, rest);
                        lemma_renderable_first_char(s@, i as int, v, rest, c);
                    }
                }
                return None;
            },
        };
        let w = RenderableType::LiquidPlane(n);
        proof {
            lemma_subrange_join(s@, i as int, j1 as int, j2 as int);
            lemma_subrange_join(s@, i as int, j2 as int, j3 as int);
            assert(s@.subrange(i as int, j3 as int) == spec_ser_renderable(w@));
            assert forall|v: RenderableTypeView, rest: Seq<char>|
                s@.skip(i as int) == #[trigger] (spec_ser_renderable(v) + rest) implies (w@ == v
                && j3 == i + spec_ser_renderable(v).len()) by {
                lemma_renderable_positions(s@, i as int, v, rest);
                lemma_renderable_first_char(s@, i as int, v, rest, c);
            }
        }
        Some((w, j3))
    } else {
        proof {
            assert forall|v: RenderableTypeView, rest: Seq<char>|
                s@.skip(i as int) == #[trigger] (spec_ser_renderable(v) + rest) implies false by {
                lemma_renderable_positions(s@, i as int, v, rest);
            }
        }
        None
    }
}

/// Comma-separated renderings of the later strings of a list.
pub open spec fn spec_strlist_rest(t: Seq<Seq<char>>) -> Seq<char>
    decreases t.len(),
{
    if t.len() == 0 {
        Seq::empty()
    } else {
        seq![','] + spec_ser_string(t[0]) + spec_strlist_rest(t.skip(1))
    }
}

/// Canonical rendering of a string list.
pub open spec fn spec_ser_strlist(t: Seq<Seq<char>>) -> Seq<char> {
    seq!['['] + (if t.len() == 0 {
        Seq::empty()
    } else {
        spec_ser_string(t[0]) + spec_strlist_rest(t.skip(1))
    }) + seq![']']
}

proof fn lemma_strlist_rest_push(t: Seq<Seq<char>>, x: Seq<char>)
    ensures
        spec_strlist_rest(t.push(x)) == spec_strlist_rest(t) + seq![','] + spec_ser_string(x),
    decreases t.len(),
{
    if t.len() == 0 {
        assert(t.push(x)[0] == x);
        assert(t.push(x).skip(1) =~= Seq::<Seq<char>>::empty());
        assert(spec_strlist_rest(Seq::<Seq<char>>::empty()) == Seq::<char>::empty());
        assert(seq![','] + spec_ser_string(x) + Seq::<char>::empty() =~= Seq::<char>::empty()
            + seq![','] + spec_ser_string(x));
    } else {
        assert(t.push(x)[0] == t[0]);
        assert(t.push(x).skip(1) =~= t.skip(1).push(x));
        lemma_strlist_rest_push(t.skip(1), x);
        assert(seq![','] + spec_ser_string(t[0]) + (spec_strlist_rest(t.skip(1)) + seq![',']
            + spec_ser_string(x)) =~= (seq![','] + spec_ser_string(t[0]) + spec_strlist_rest(
            t.skip(1),
        )) + seq![','] + spec_ser_string(x));
    }
}

/// Serializes a string list onto `out`.
pub fn push_strlist(out: &mut Vec<char>, t: &Vec<String>)
    ensures
        final(out)@ == old(out)@ + spec_ser_strlist(strings_view(t@)),
{
    out.push('[');
    let n = t.len();
    let mut k: usize = 0;
    while k < n
        invariant
            n == t@.len(),
            k <= n,
            k == 0 ==> out@ == old(out)@ + seq!['['],
            k > 0 ==> out@ == old(out)@ + seq!['['] + spec_ser_string(strings_view(t@)[0])
                + spec_strlist_rest(strings_view(t@).subrange(1, k as int)),
        decreases n - k,
    {
        proof {
            assert(strings_view(t@)[k as int] == t@[k as int]@);
        }
        if k > 0 {
            out.push(',');
        }
        push_string(out, t[k].as_str());
        proof {
            let sv = strings_view(t@);
            if k == 0 {
                assert(sv.subrange(1, 1) =~= Seq::<Seq<char>>::empty());
                assert(spec_strlist_rest(sv.subrange(1, 1)) == Seq::<char>::empty());
                assert(out@ =~= old(out)@ + seq!['['] + spec_ser_string(sv[0])
                    + spec_strlist_rest(sv.subrange(1, 1)));
            } else {
                assert(sv.subrange(1, k + 1) =~= sv.subrange(1, k as int).push(sv[k as int]));
                lemma_strlist_rest_push(sv.subrange(1, k as int), sv[k as int]);
                assert(out@ =~= old(out)@ + seq!['['] + spec_ser_string(sv[0])
                    + spec_strlist_rest(sv.subrange(1, k + 1)));
            }
        }
        k += 1;
    }
    out.push(']');
    proof {
        let sv = strings_view(t@);
        if n == 0 {
            assert(out@ =~= old(out)@ + spec_ser_strlist(sv));
        } else {
            assert(sv.subrange(1, n as int) =~= sv.skip(1));
            assert(out@ =~= old(out)@ + spec_ser_strlist(sv));
        }
    }
}

/// Where the remaining strings and the closing bracket stand.
proof fn lemma_strlist_rest_positions(s: Seq<char>, i: int, t: Seq<Seq<char>>, rest: Seq<char>)
    requires
        0 <= i <= s.len(),
        s.skip(i) == spec_strlist_rest(t) + seq![']'] + rest,
    ensures
        i < s.len(),
        "]"@.len() == 1,
        ","@.len() == 1,
        t.len() == 0 ==> s[i] == ']' && s.subrange(i, i + 1) == "]"@ && s.skip(i + 1) == rest,
        t.len() > 0 ==> s[i] == ',' && s.skip(i + 1) == spec_ser_string(t[0]) + (
        spec_strlist_rest(t.skip(1)) + seq![']'] + rest),
{
    reveal_strlit("]");
    reveal_strlit(",");
    assert("]"@ =~= seq![']']);
    if t.len() == 0 {
        assert(s.skip(i) =~= seq![']'] + rest);
        lemma_skip_split(s, i, seq![']'], rest);
        assert(s[i] == ']') by {
            assert(s.subrange(i, i + 1)[0] == s[i]);
        }
        assert(s.subrange(i, i + 1) =~= "]"@);
    } else {
        let tail1 = spec_ser_string(t[0]) + (spec_strlist_rest(t.skip(1)) + seq![']'] + rest);
        assert(s.skip(i) =~= seq![','] + tail1);
        lemma_skip_split(s, i, seq![','], tail1);
        assert(s[i] == ',') by {
            assert(s.subrange(i, i + 1)[0] == s[i]);
        }
    }
}

/// Parses the remainder of a string list, up to and including the closing
/// bracket.
#[verifier::rlimit(100)]
#[verifier::spinoff_prover]
fn parse_strlist_more(s: &Vec<char>, i: usize) -> (r: Option<(Vec<String>, usize)>)
    requires
        i <= s@.len(),
    ensures
        r matches Some((w, j)) ==> i < j <= s@.len() && s@.subrange(i as int, j as int)
            == spec_strlist_rest(strings_view(w@)) + seq![']'],
        forall|t: Seq<Seq<char>>, rest: Seq<char>|
            s@.skip(i as int) == #[trigger] (spec_strlist_rest(t) + seq![']'] + rest) ==> (
            r matches Some((w, j)) && strings_view(w@) == t && j == i + spec_strlist_rest(
                t,
            ).len() + 1),
    decreases s@.len() - i,
{
    proof {
        reveal_strlit("]");
        reveal_strlit(",");
        assert("]"@ =~= seq![']']);
    }
    match expect_str(s, i, "]") {
        Some(j) => {
            let w: Vec<String> = Vec::new();
            proof {
                assert(strings_view(w@) =~= Seq::<Seq<char>>::empty());
                assert(spec_strlist_rest(strings_view(w@)) == Seq::<char>::empty());
                assert(s@.subrange(i as int, j as int) =~= spec_strlist_rest(strings_view(w@))
                    + seq![']']);
                assert forall|t: Seq<Seq<char>>, rest: Seq<char>|
                    s@.skip(i as int) == #[trigger] (spec_strlist_rest(t) + seq![']'] + rest) implies (
                strings_view(w@) == t && j == i + spec_strlist_rest(t).len() + 1) by {
                    lemma_strlist_rest_positions(s@, i as int, t, rest);
                    if t.len() > 0 {
                        assert(s@[i as int] == ',');
                        assert(s@[i as int] == ']') by {
                            assert(s@.subrange(i as int, i + 1)[0] == s@[i as int]);
                        }
                    }
                }
            }
            return Some((w, j));
        },
        None => {},
    }
    let j1 = match expect_str(s, i, ",") {
        Some(j) => j,
        None => {
            proof {
                assert forall|t: Seq<Seq<char>>, rest: Seq<char>|
                    s@.skip(i as int) == #[trigger] (spec_strlist_rest(t) + seq![']'] + rest) implies false by {
                    lemma_strlist_rest_positions(s@, i as int, t, rest);
                    if t.len() == 0 {
                    } else {
                        assert(s@.subrange(i as int, i + 1) =~= ","@);
                    }
                }
            }
            return None;
        },
    };
    let (x, j2) = match parse_string(s, j1) {
        Some(q) => q,
        None => {
            proof {
                assert forall|t: Seq<Seq<char>>, rest: Seq<char>|
                    s@.skip(i as int) == #[trigger] (spec_strlist_rest(t) + seq![']'] + rest) implies false by {
                    lemma_strlist_rest_positions(s@, i as int, t, rest);
                    if t.len() == 0 {
                        assert(s@.subrange(i as int, i + 1) =~= "]"@);
                    }
                }
            }
            return None;
        },
    };
    let (tail, j3) = match parse_strlist_more(s, j2) {
        Some(q) => q,
        None => {
            proof {
                assert forall|t: Seq<Seq<char>>, rest: Seq<char>|
                    s@.skip(i as int) == #[trigger] (spec_strlist_rest(t) + seq![']'] + rest) implies false by {
                    lemma_strlist_rest_positions(s@, i as int, t, rest);
                    if t.len() == 0 {
                        assert(s@.subrange(i as int, i + 1) =~= "]"@);
                    } else {
                        lemma_ser_string_layout_here(
                            s@,
                            j1 as int,
                            t[0],
                            spec_strlist_rest(t.skip(1)) + seq![']'] + rest,
                        );
                    }
                }
            }
            return None;
        },
    };
    let mut w = tail;
    w.insert(0, x);
    proof {
        let xv = x@;
        let tv = strings_view(tail@);
        assert(strings_view(w@) =~= seq![xv] + tv);
        assert((seq![xv] + tv)[0] == xv);
        assert((seq![xv] + tv).skip(1) =~= tv);
        assert(spec_strlist_rest(strings_view(w@)) == seq![','] + spec_ser_string(xv)
            + spec_strlist_rest(tv));
        assert(s@.subrange(i as int, j1 as int) =~= seq![',']);
        lemma_subrange_join(s@, i as int, j1 as int, j2 as int);
        lemma_subrange_join(s@, i as int, j2 as int, j3 as int);
        assert(s@.subrange(i as int, j3 as int) =~= spec_strlist_rest(strings_view(w@))
            + seq![']']);
        assert forall|t: Seq<Seq<char>>, rest: Seq<char>|
            s@.skip(i as int) == #[trigger] (spec_strlist_rest(t) + seq![']'] + rest) implies (
        strings_view(w@) == t && j3 == i + spec_strlist_rest(t).len() + 1) by {
            lemma_strlist_rest_positions(s@, i as int, t, rest);
            if t.len() == 0 {
                assert(s@.subrange(i as int, i + 1) =~= "]"@);
            } else {
                lemma_ser_string_layout_here(
                    s@,
                    j1 as int,
                    t[0],
                    spec_strlist_rest(t.skip(1)) + seq![']'] + rest,
                );
                assert(strings_view(w@) =~= t) by {
                    assert(strings_view(tail@) == t.skip(1));
                    assert(xv == t[0]);
                    assert(t =~= seq![t[0]] + t.skip(1));
                }
            }
        }
    }
    Some((w, j3))
}

/// Where a serialized string stands, exposing the position after it.
proof fn lemma_ser_string_layout_here(s: Seq<char>, i: int, v: Seq<char>, rest: Seq<char>)
    requires
        0 <= i <= s.len(),
        s.skip(i) == spec_ser_string(v) + rest,
    ensures
        i + spec_ser_string(v).len() <= s.len(),
        s.skip(i) == spec_ser_string(v) + s.skip(i + spec_ser_string(v).len()),
        s.skip(i + spec_ser_string(v).len()) == rest,
{
    lemma_skip_split(s, i, spec_ser_string(v), rest);
}

/// Parses a whole serialized string list.
#[verifier::rlimit(100)]
#[verifier::spinoff_prover]
pub fn parse_strlist(s: &Vec<char>, i: usize) -> (r: Option<(Vec<String>, usize)>)
    requires
        i <= s@.len(),
    ensures
        r matches Some((w, j)) ==> i < j <= s@.len() && s@.subrange(i as int, j as int)
            == spec_ser_strlist(strings_view(w@)),
        forall|t: Seq<Seq<char>>, rest: Seq<char>|
            s@.skip(i as int) == #[trigger] (spec_ser_strlist(t) + rest) ==> (r matches Some(
                (w, j),
            ) && strings_view(w@) == t && j == i + spec_ser_strlist(t).len()),
{
    proof {
        reveal_strlit("[");
        reveal_strlit("]");
        assert("["@ =~= seq!['[']);
        assert("]"@ =~= seq![']']);
    }
    let j1 = match expect_str(s, i, "[") {
        Some(j) => j,
        None => {
            proof {
                assert forall|t: Seq<Seq<char>>, rest: Seq<char>|
                    s@.skip(i as int) == #[trigger] (spec_ser_strlist(t) + rest) implies false by {
                    lemma_strlist_positions(s@, i as int, t, rest);
                }
            }
            return None;
        },
    };
    match expect_str(s, j1, "]") {
        Some(j2) => {
            let w: Vec<String> = Vec::new();
            proof {
                assert(strings_view(w@) =~= Seq::<Seq<char>>::empty());
                assert(s@.subrange(i as int, j2 as int) =~= spec_ser_strlist(strings_view(w@)));
                assert forall|t: Seq<Seq<char>>, rest: Seq<char>|
                    s@.skip(i as int) == #[trigger] (spec_ser_strlist(t) + rest) implies (
                strings_view(w@) == t && j2 == i + spec_ser_strlist(t).len()) by {
                    lemma_strlist_positions(s@, i as int, t, rest);
                    if t.len() > 0 {
                        lemma_ser_string_layout_here(
                            s@,
                            j1 as int,
                            t[0],
                            spec_strlist_rest(t.skip(1)) + seq![']'] + rest,
                        );
                        assert(s@[j1 as int] == '"') by {
                            assert(s@.skip(j1 as int)[0] == s@[j1 as int]);
                            assert((spec_ser_string(t[0]) + (spec_strlist_rest(t.skip(1))
                                + seq![']'] + rest))[0] == spec_ser_string(t[0])[0]);
                            assert(spec_ser_string(t[0])[0] == '"');
                        }
                        assert(s@[j1 as int] == ']') by {
                            assert(s@.subrange(j1 as int, j1 + 1)[0] == s@[j1 as int]);
                        }
                    }
                }
            }
            return Some((w, j2));
        },
        None => {},
    }
    let (x, j2) = match parse_string(s, j1) {
        Some(q) => q,
        None => {
            proof {
                assert forall|t: Seq<Seq<char>>, rest: Seq<char>|
                    s@.skip(i as int) == #[trigger] (spec_ser_strlist(t) + rest) implies false by {
                    lemma_strlist_positions(s@, i as int, t, rest);
                    if t.len() == 0 {
                        assert(s@.subrange(j1 as int, j1 + 1) =~= "]"@);
                    }
                }
            }
            return None;
        },
    };
    let (tail, j3) = match parse_strlist_more(s, j2) {
        Some(q) => q,
        None => {
            proof {
                assert forall|t: Seq<Seq<char>>, rest: Seq<char>|
                    s@.skip(i as int) == #[trigger] (spec_ser_strlist(t) + rest) implies false by {
                    lemma_strlist_positions(s@, i as int, t, rest);
                    if t.len() == 0 {
                        assert(s@.subrange(j1 as int, j1 + 1) =~= "]"@);
                    } else {
                        lemma_ser_string_layout_here(
                            s@,
                            j1 as int,
                            t[0],
                            spec_strlist_rest(t.skip(1)) + seq![']'] + rest,
                        );
                    }
                }
            }
            return None;
        },
    };
    let mut w = tail;
    w.insert(0, x);
    proof {
        let xv = x@;
        let tv = strings_view(tail@);
        assert(strings_view(w@) =~= seq![xv] + tv);
        assert((seq![xv] + tv)[0] == xv);
        assert((seq![xv] + tv).skip(1) =~= tv);
        assert(s@.subrange(i as int, j1 as int) =~= seq!['[']);
        lemma_subrange_join(s@, i as int, j1 as int, j2 as int);
        lemma_subrange_join(s@, i as int, j2 as int, j3 as int);
        assert(s@.subrange(i as int, j3 as int) =~= spec_ser_strlist(strings_view(w@)));
        assert forall|t: Seq<Seq<char>>, rest: Seq<char>|
            s@.skip(i as int) == #[trigger] (spec_ser_strlist(t) + rest) implies (strings_view(w@)
            == t && j3 == i + spec_ser_strlist(t).len()) by {
            lemma_strlist_positions(s@, i as int, t, rest);
            if t.len() == 0 {
                assert(s@.subrange(j1 as int, j1 + 1) =~= "]"@);
            } else {
                lemma_ser_string_layout_here(
                    s@,
                    j1 as int,
                    t[0],
                    spec_strlist_rest(t.skip(1)) + seq![']'] + rest,
                );
                assert(strings_view(w@) =~= t) by {
                    assert(strings_view(tail@) == t.skip(1));
                    assert(xv == t[0]);
                    assert(t =~= seq![t[0]] + t.skip(1));
                }
            }
        }
    }
    Some((w, j3))
}

/// Where each part of a serialized string list stands in the input.
proof fn lemma_strlist_positions(s: Seq<char>, i: int, t: Seq<Seq<char>>, rest: Seq<char>)
    requires
        0 <= i <= s.len(),
        s.skip(i) == spec_ser_strlist(t) + rest,
    ensures
        i < s.len(),
        i + spec_ser_strlist(t).len() <= s.len(),
        s[i] == '[',
        s.subrange(i, i + 1) == "["@,
        "["@.len() == 1,
        t.len() == 0 ==> s.skip(i + 1) == seq![']'] + rest && s.subrange(i + 1, i + 2) == "]"@,
        t.len() > 0 ==> s.skip(i + 1) == spec_ser_string(t[0]) + (spec_strlist_rest(t.skip(1))
            + seq![']'] + rest),
        s.skip(i + spec_ser_strlist(t).len()) == rest,
{
    reveal_strlit("[");
    reveal_strlit("]");
    assert("["@ =~= seq!['[']);
    assert("]"@ =~= seq![']']);
    if t.len() == 0 {
        assert(s.skip(i) =~= seq!['['] + (seq![']'] + rest));
        lemma_skip_split(s, i, seq!['['], seq![']'] + rest);
        lemma_skip_split(s, i + 1, seq![']'], rest);
        assert(s[i] == '[') by {
            assert(s.subrange(i, i + 1)[0] == s[i]);
        }
        assert(s.subrange(i, i + 1) =~= "["@);
        assert(s.subrange(i + 1, i + 2) =~= "]"@);
    } else {
        let t1 = spec_ser_string(t[0]) + (spec_strlist_rest(t.skip(1)) + seq![']'] + rest);
        assert(s.skip(i) =~= seq!['['] + t1);
        lemma_skip_split(s, i, seq!['['], t1);
        assert(s[i] == '[') by {
            assert(s.subrange(i, i + 1)[0] == s[i]);
        }
        assert(s.subrange(i, i + 1) =~= "["@);
        lemma_skip_split(s, i + 1, spec_ser_string(t[0]), spec_strlist_rest(t.skip(1))
            + seq![']'] + rest);
        assert(spec_strlist_rest(t.skip(1)) + seq![']'] + rest =~= spec_strlist_rest(t.skip(1))
            + (seq![']'] + rest));
        lemma_skip_split(
            s,
            i + 1 + spec_ser_string(t[0]).len(),
            spec_strlist_rest(t.skip(1)),
            seq![']'] + rest,
        );
        lemma_skip_split(
            s,
            i + 1 + spec_ser_string(t[0]).len() + spec_strlist_rest(t.skip(1)).len(),
            seq![']'],
            rest,
        );
    }
}

/// Canonical rendering of an optional string list.
pub open spec fn spec_ser_opt_strlist(o: Option<Seq<Seq<char>>>) -> Seq<char> {
    match o {
        None => "None"@,
        Some(t) => "Some("@ + spec_ser_strlist(t) + ")"@,
    }
}

/// Canonical rendering of an optional two-component vector.
pub open spec fn spec_ser_opt_vec2(o: Option<Vec2>) -> Seq<char> {
    match o {
        None => "None"@,
        Some(v) => "Some("@ + spec_ser_vec2(v) + ")"@,
    }
}

/// Serializes an optional string list onto `out`.
pub fn push_opt_strlist(out: &mut Vec<char>, o: &Option<Vec<String>>)
    ensures
        final(out)@ == old(out)@ + spec_ser_opt_strlist(
            match o {
                Some(t) => Some(strings_view(t@)),
                None => None,
            },
        ),
{
    match o {
        None => {
            push_str_chars(out, "None");
        },
        Some(t) => {
            push_str_chars(out, "Some(");
            push_strlist(out, t);
            push_str_chars(out, ")");
            proof {
                assert(out@ =~= old(out)@ + spec_ser_opt_strlist(Some(strings_view(t@))));
            }
        },
    }
}

/// Serializes an optional two-component vector onto `out`.
pub fn push_opt_vec2(out: &mut Vec<char>, o: &Option<Vec2>)
    ensures
        final(out)@ == old(out)@ + spec_ser_opt_vec2(*o),
{
    match o {
        None => {
            push_str_chars(out, "None");
        },
        Some(v) => {
            push_str_chars(out, "Some(");
            push_vec2(out, v);
            push_str_chars(out, ")");
            proof {
                assert(out@ =~= old(out)@ + spec_ser_opt_vec2(Some(*v)));
            }
        },
    }
}

/// Where a serialized optional string list stands in the input.
proof fn lemma_opt_strlist_positions(
    s: Seq<char>,
    i: int,
    o: Option<Seq<Seq<char>>>,
    rest: Seq<char>,
)
    requires
        0 <= i <= s.len(),
        s.skip(i) == spec_ser_opt_strlist(o) + rest,
    ensures
        i < s.len(),
        i + spec_ser_opt_strlist(o).len() <= s.len(),
        s.skip(i + spec_ser_opt_strlist(o).len()) == rest,
        o is None ==> s[i] == 'N' && s.subrange(i, i + "None"@.len()) == "None"@,
        o matches Some(t) ==> s[i] == 'S' && s.subrange(i, i + "Some("@.len()) == "Some("@
            && s.skip(i + "Some("@.len()) == spec_ser_strlist(t) + s.skip(
            i + "Some("@.len() + spec_ser_strlist(t).len(),
        ) && s.subrange(
            i + "Some("@.len() + spec_ser_strlist(t).len(),
            i + "Some("@.len() + spec_ser_strlist(t).len() + 1,
        ) == ")"@,
{
    reveal_strlit("None");
    reveal_strlit("Some(");
    reveal_strlit(")");
    match o {
        None => {
            lemma_skip_split(s, i, "None"@, rest);
            assert(s[i] == 'N') by {
                assert(s.subrange(i, i + "None"@.len())[0] == s[i]);
            }
        },
        Some(t) => {
            let body = spec_ser_strlist(t);
            let t1 = body + (")"@ + rest);
            assert(s.skip(i) =~= "Some("@ + t1);
            lemma_skip_split(s, i, "Some("@, t1);
            let p1 = i + "Some("@.len();
            lemma_skip_split(s, p1, body, ")"@ + rest);
            let p2 = p1 + body.len();
            lemma_skip_split(s, p2, ")"@, rest);
            assert(s[i] == 'S') by {
                assert(s.subrange(i, p1)[0] == s[i]);
            }
        },
    }
}

/// Parses a serialized optional string list.
#[verifier::rlimit(60)]
pub fn parse_opt_strlist(s: &Vec<char>, i: usize) -> (r: Option<(Option<Vec<String>>, usize)>)
    requires
        i <= s@.len(),
    ensures
        r matches Some((o, j)) ==> i < j <= s@.len() && s@.subrange(i as int, j as int)
            == spec_ser_opt_strlist(
            match o {
                Some(t) => Some(strings_view(t@)),
                None => None,
            },
        ),
        forall|o: Option<Seq<Seq<char>>>, rest: Seq<char>|
            s@.skip(i as int) == #[trigger] (spec_ser_opt_strlist(o) + rest) ==> (r matches Some(
                (w, j),
            ) && (match w {
                Some(t) => (o matches Some(tv) && strings_view(t@) == tv),
                None => o is None,
            }) && j == i + spec_ser_opt_strlist(o).len()),
{
    proof {
        reveal_strlit("None");
        reveal_strlit("Some(");
        reveal_strlit(")");
    }
    match expect_str(s, i, "None") {
        Some(j) => {
            proof {
                assert forall|o: Option<Seq<Seq<char>>>, rest: Seq<char>|
                    s@.skip(i as int) == #[trigger] (spec_ser_opt_strlist(o) + rest) implies (
                o is None && j == i + spec_ser_opt_strlist(o).len()) by {
                    lemma_opt_strlist_positions(s@, i as int, o, rest);
                    if o is Some {
                        assert(s@[i as int] == 'N') by {
                            assert(s@.subrange(i as int, i + "None"@.len())[0] == s@[i as int]);
                        }
                    }
                }
            }
            return Some((None, j));
        },
        None => {},
    }
    let j1 = match expect_str(s, i, "Some(") {
        Some(j) => j,
        None => {
            proof {
                assert forall|o: Option<Seq<Seq<char>>>, rest: Seq<char>|
                    s@.skip(i as int) == #[trigger] (spec_ser_opt_strlist(o) + rest) implies false by {
                    lemma_opt_strlist_positions(s@, i as int, o, rest);
                }
            }
            return None;
        },
    };
    let (t, j2) = match parse_strlist(s, j1) {
        Some(q) => q,
        None => {
            proof {
                assert forall|o: Option<Seq<Seq<char>>>, rest: Seq<char>|
                    s@.skip(i as int) == #[trigger] (spec_ser_opt_strlist(o) + rest) implies false by {
                    lemma_opt_strlist_positions(s@, i as int, o, rest);
                }
            }
            return None;
        },
    };
    let j3 = match expect_str(s, j2, ")") {
        Some(j) => j,
        None => {
            proof {
                assert forall|o: Option<Seq<Seq<char>>>, rest: Seq<char>|
                    s@.skip(i as int) == #[trigger] (spec_ser_opt_strlist(o) + rest) implies false by {
                    lemma_opt_strlist_positions(s@, i as int, o, rest);
                }
            }
            return None;
        },
    };
    proof {
        lemma_subrange_join(s@, i as int, j1 as int, j2 as int);
        lemma_subrange_join(s@, i as int, j2 as int, j3 as int);
        assert(s@.subrange(i as int, j3 as int) == spec_ser_opt_strlist(Some(strings_view(t@))));
        assert forall|o: Option<Seq<Seq<char>>>, rest: Seq<char>|
            s@.skip(i as int) == #[trigger] (spec_ser_opt_strlist(o) + rest) implies (o matches Some(
            tv,
        ) && strings_view(t@) == tv && j3 == i + spec_ser_opt_strlist(o).len()) by {
            lemma_opt_strlist_positions(s@, i as int, o, rest);
            if o is None {
                assert(s@[i as int] == 'S') by {
                    assert(s@.subrange(i as int, i + "Some("@.len())[0] == s@[i as int]);
                }
            }
        }
    }
    Some((Some(t), j3))
}

/// Where a serialized optional vector stands in the input.
proof fn lemma_opt_vec2_positions(s: Seq<char>, i: int, o: Option<Vec2>, rest: Seq<char>)
    requires
        0 <= i <= s.len(),
        s.skip(i) == spec_ser_opt_vec2(o) + rest,
    ensures
        i < s.len(),
        i + spec_ser_opt_vec2(o).len() <= s.len(),
        s.skip(i + spec_ser_opt_vec2(o).len()) == rest,
        o is None ==> s[i] == 'N' && s.subrange(i, i + "None"@.len()) == "None"@,
        o matches Some(v) ==> s[i] == 'S' && s.subrange(i, i + "Some("@.len()) == "Some("@
            && s.skip(i + "Some("@.len()) == spec_ser_vec2(v) + s.skip(
            i + "Some("@.len() + spec_ser_vec2(v).len(),
        ) && s.subrange(
            i + "Some("@.len() + spec_ser_vec2(v).len(),
            i + "Some("@.len() + spec_ser_vec2(v).len() + 1,
        ) == ")"@,
{
    reveal_strlit("None");
    reveal_strlit("Some(");
    reveal_strlit(")");
    match o {
        None => {
            lemma_skip_split(s, i, "None"@, rest);
            assert(s[i] == 'N') by {
                assert(s.subrange(i, i + "None"@.len())[0] == s[i]);
            }
        },
        Some(v) => {
            let body = spec_ser_vec2(v);
            let t1 = body + (")"@ + rest);
            assert(s.skip(i) =~= "Some("@ + t1);
            lemma_skip_split(s, i, "Some("@, t1);
            let p1 = i + "Some("@.len();
            lemma_skip_split(s, p1, body, ")"@ + rest);
            let p2 = p1 + body.len();
            lemma_skip_split(s, p2, ")"@, rest);
            assert(s[i] == 'S') by {
                assert(s.subrange(i, p1)[0] == s[i]);
            }
        },
    }
}

/// Parses a serialized optional two-component vector.
#[verifier::rlimit(60)]
pub fn parse_opt_vec2(s: &Vec<char>, i: usize) -> (r: Option<(Option<Vec2>, usize)>)
    requires
        i <= s@.len(),
    ensures
        r matches Some((o, j)) ==> i < j <= s@.len() && s@.subrange(i as int, j as int)
            == spec_ser_opt_vec2(o),
        forall|o: Option<Vec2>, rest: Seq<char>|
            s@.skip(i as int) == #[trigger] (spec_ser_opt_vec2(o) + rest) ==> (r matches Some(
                (w, j),
            ) && w == o && j == i + spec_ser_opt_vec2(o).len()),
{
    proof {
        reveal_strlit("None");
        reveal_strlit("Some(");
        reveal_strlit(")");
    }
    match expect_str(s, i, "None") {
        Some(j) => {
            proof {
                assert forall|o: Option<Vec2>, rest: Seq<char>|
                    s@.skip(i as int) == #[trigger] (spec_ser_opt_vec2(o) + rest) implies (
                o is None && j == i + spec_ser_opt_vec2(o).len()) by {
                    lemma_opt_vec2_positions(s@, i as int, o, rest);
                    if o is Some {
                        assert(s@[i as int] == 'N') by {
                            assert(s@.subrange(i as int, i + "None"@.len())[0] == s@[i as int]);
                        }
                    }
                }
            }
            return Some((None, j));
        },
        None => {},
    }
    let j1 = match expect_str(s, i, "Some(") {
        Some(j) => j,
        None => {
            proof {
                assert forall|o: Option<Vec2>, rest: Seq<char>|
                    s@.skip(i as int) == #[trigger] (spec_ser_opt_vec2(o) + rest) implies false by {
                    lemma_opt_vec2_positions(s@, i as int, o, rest);
                }
            }
            return None;
        },
    };
    let (v, j2) = match parse_vec2(s, j1) {
        Some(q) => q,
        None => {
            proof {
                assert forall|o: Option<Vec2>, rest: Seq<char>|
                    s@.skip(i as int) == #[trigger] (spec_ser_opt_vec2(o) + rest) implies false by {
                    lemma_opt_vec2_positions(s@, i as int, o, rest);
                }
            }
            return None;
        },
    };
    let j3 = match expect_str(s, j2, ")") {
        Some(j) => j,
        None => {
            proof {
                assert forall|o: Option<Vec2>, rest: Seq<char>|
                    s@.skip(i as int) == #[trigger] (spec_ser_opt_vec2(o) + rest) implies false by {
                    lemma_opt_vec2_positions(s@, i as int, o, rest);
                }
            }
            return None;
        },
    };
    proof {
        lemma_subrange_join(s@, i as int, j1 as int, j2 as int);
        lemma_subrange_join(s@, i as int, j2 as int, j3 as int);
        assert(s@.subrange(i as int, j3 as int) == spec_ser_opt_vec2(Some(v)));
        assert forall|o: Option<Vec2>, rest: Seq<char>|
            s@.skip(i as int) == #[trigger] (spec_ser_opt_vec2(o) + rest) implies (Some(v) == o
            && j3 == i + spec_ser_opt_vec2(o).len()) by {
            lemma_opt_vec2_positions(s@, i as int, o, rest);
            if o is None {
                assert(s@[i as int] == 'S') by {
                    assert(s@.subrange(i as int, i + "Some("@.len())[0] == s@[i as int]);
                }
            }
        }
    }
    Some((Some(v), j3))
}

/// Canonical rendering of one doodad definition.
pub open spec fn spec_ser_definition(d: DoodadDefinitionView) -> Seq<char> {
    "(model:"@ + spec_ser_renderable(d.model) + ",initial_custom_props:"@ + spec_ser_opt_props(
        d.initial_custom_props,
    ) + ",tags:"@ + spec_ser_opt_strlist(d.tags) + ",snap_dimensions:"@ + spec_ser_opt_vec2(
        d.snap_dimensions,
    ) + ")"@
}

/// Serializes one doodad definition onto `out`.
pub fn push_definition(out: &mut Vec<char>, d: &DoodadDefinition)
    ensures
        final(out)@ == old(out)@ + spec_ser_definition(d@),
{
    push_str_chars(out, "(model:");
    push_renderable(out, &d.model);
    push_str_chars(out, ",initial_custom_props:");
    push_opt_props(out, &d.initial_custom_props);
    push_str_chars(out, ",tags:");
    push_opt_strlist(out, &d.tags);
    push_str_chars(out, ",snap_dimensions:");
    push_opt_vec2(out, &d.snap_dimensions);
    push_str_chars(out, ")");
    proof {
        assert(out@ =~= old(out)@ + spec_ser_definition(d@));
    }
}

/// Where each part of a serialized definition stands in the input.
proof fn lemma_definition_positions(s: Seq<char>, i: int, d: DoodadDefinitionView, rest: Seq<char>)
    requires
        0 <= i <= s.len(),
        s.skip(i) == spec_ser_definition(d) + rest,
    ensures
        ({
            let sm = spec_ser_renderable(d.model);
            let sp = spec_ser_opt_props(d.initial_custom_props);
            let st = spec_ser_opt_strlist(d.tags);
            let sv = spec_ser_opt_vec2(d.snap_dimensions);
            let p1 = i + "(model:"@.len();
            let p2 = p1 + sm.len();
            let p3 = p2 + ",initial_custom_props:"@.len();
            let p4 = p3 + sp.len();
            let p5 = p4 + ",tags:"@.len();
            let p6 = p5 + st.len();
            let p7 = p6 + ",snap_dimensions:"@.len();
            let p8 = p7 + sv.len();
            let p9 = p8 + ")"@.len();
            &&& i < s.len()
            &&& p9 <= s.len()
            &&& p9 == i + spec_ser_definition(d).len()
            &&& s[i] == '('
            &&& s.subrange(i, p1) == "(model:"@
            &&& s.skip(p1) == sm + s.skip(p2)
            &&& s.subrange(p2, p3) == ",initial_custom_props:"@
            &&& s.skip(p3) == sp + s.skip(p4)
            &&& s.subrange(p4, p5) == ",tags:"@
            &&& s.skip(p5) == st + s.skip(p6)
            &&& s.subrange(p6, p7) == ",snap_dimensions:"@
            &&& s.skip(p7) == sv + s.skip(p8)
            &&& s.subrange(p8, p9) == ")"@
            &&& s.skip(p9) == rest
        }),
{
    reveal_strlit("(model:");
    let sm = spec_ser_renderable(d.model);
    let sp = spec_ser_opt_props(d.initial_custom_props);
    let st = spec_ser_opt_strlist(d.tags);
    let sv = spec_ser_opt_vec2(d.snap_dimensions);
    let t1 = sm + (",initial_custom_props:"@ + (sp + (",tags:"@ + (st + (",snap_dimensions:"@ + (
    sv + (")"@ + rest)))))));
    assert(s.skip(i) =~= "(model:"@ + t1);
    lemma_skip_split(s, i, "(model:"@, t1);
    let p1 = i + "(model:"@.len();
    lemma_skip_split(s, p1, sm, ",initial_custom_props:"@ + (sp + (",tags:"@ + (st + (
    ",snap_dimensions:"@ + (sv + (")"@ + rest)))))));
    let p2 = p1 + sm.len();
    lemma_skip_split(s, p2, ",initial_custom_props:"@, sp + (",tags:"@ + (st + (
    ",snap_dimensions:"@ + (sv + (")"@ + rest))))));
    let p3 = p2 + ",initial_custom_props:"@.len();
    lemma_skip_split(s, p3, sp, ",tags:"@ + (st + (",snap_dimensions:"@ + (sv + (")"@
        + rest)))));
    let p4 = p3 + sp.len();
    lemma_skip_split(s, p4, ",tags:"@, st + (",snap_dimensions:"@ + (sv + (")"@ + rest))));
    let p5 = p4 + ",tags:"@.len();
    lemma_skip_split(s, p5, st, ",snap_dimensions:"@ + (sv + (")"@ + rest)));
    let p6 = p5 + st.len();
    lemma_skip_split(s, p6, ",snap_dimensions:"@, sv + (")"@ + rest));
    let p7 = p6 + ",snap_dimensions:"@.len();
    lemma_skip_split(s, p7, sv, ")"@ + rest);
    let p8 = p7 + sv.len();
    lemma_skip_split(s, p8, ")"@, rest);
    assert(s[i] == '(') by {
        assert(s.subrange(i, p1)[0] == s[i]);
    }
}

/// Parses one serialized doodad definition.
#[verifier::rlimit(100)]
#[verifier::spinoff_prover]
pub fn parse_definition(s: &Vec<char>, i: usize) -> (r: Option<(DoodadDefinition, usize)>)
    requires
        i <= s@.len(),
    ensures
        r matches Some((d, j)) ==> i < j <= s@.len() && s@.subrange(i as int, j as int)
            == spec_ser_definition(d@),
        forall|d: DoodadDefinitionView, rest: Seq<char>|
            s@.skip(i as int) == #[trigger] (spec_ser_definition(d) + rest) ==> (r matches Some(
                (w, j),
            ) && w@ == d && j == i + spec_ser_definition(d).len()),
{
    let j1 = match expect_str(s, i, "(model:") {
        Some(j) => j,
        None => {
            proof {
                assert forall|d: DoodadDefinitionView, rest: Seq<char>|
                    s@.skip(i as int) == #[trigger] (spec_ser_definition(d) + rest) implies false by {
                    lemma_definition_positions(s@, i as int, d, rest);
                }
            }
            return None;
        },
    };
    let (model, j2) = match parse_renderable(s, j1) {
        Some(q) => q,
        None => {
            proof {
                assert forall|d: DoodadDefinitionView, rest: Seq<char>|
                    s@.skip(i as int) == #[trigger] (spec_ser_definition(d) + rest) implies false by {
                    lemma_definition_positions(s@, i as int, d, rest);
                }
            }
            return None;
        },
    };
    let j3 = match expect_str(s, j2, ",initial_custom_props:") {
        Some(j) => j,
        None => {
            proof {
                assert forall|d: DoodadDefinitionView, rest: Seq<char>|
                    s@.skip(i as int) == #[trigger] (spec_ser_definition(d) + rest) implies false by {
                    lemma_definition_positions(s@, i as int, d, rest);
                }
            }
            return None;
        },
    };
    let (props, j4) = match parse_opt_props(s, j3) {
        Some(q) => q,
        None => {
            proof {
                assert forall|d: DoodadDefinitionView, rest: Seq<char>|
                    s@.skip(i as int) == #[trigger] (spec_ser_definition(d) + rest) implies false by {
                    lemma_definition_positions(s@, i as int, d, rest);
                }
            }
            return None;
        },
    };
    let j5 = match expect_str(s, j4, ",tags:") {
        Some(j) => j,
        None => {
            proof {
                assert forall|d: DoodadDefinitionView, rest: Seq<char>|
                    s@.skip(i as int) == #[trigger] (spec_ser_definition(d) + rest) implies false by {
                    lemma_definition_positions(s@, i as int, d, rest);
                }
            }
            return None;
        },
    };
    let (tags, j6) = match parse_opt_strlist(s, j5) {
        Some(q) => q,
        None => {
            proof {
                assert forall|d: DoodadDefinitionView, rest: Seq<char>|
                    s@.skip(i as int) == #[trigger] (spec_ser_definition(d) + rest) implies false by {
                    lemma_definition_positions(s@, i as int, d, rest);
                }
            }
            return None;
        },
    };
    let j7 = match expect_str(s, j6, ",snap_dimensions:") {
        Some(j) => j,
        None => {
            proof {
                assert forall|d: DoodadDefinitionView, rest: Seq<char>|
                    s@.skip(i as int) == #[trigger] (spec_ser_definition(d) + rest) implies false by {
                    lemma_definition_positions(s@, i as int, d, rest);
                }
            }
            return None;
        },
    };
    let (snap, j8) = match parse_opt_vec2(s, j7) {
        Some(q) => q,
        None => {
            proof {
                assert forall|d: DoodadDefinitionView, rest: Seq<char>|
                    s@.skip(i as int) == #[trigger] (spec_ser_definition(d) + rest) implies false by {
                    lemma_definition_positions(s@, i as int, d, rest);
                }
            }
            return None;
        },
    };
    let j9 = match expect_str(s, j8, ")") {
        Some(j) => j,
        None => {
            proof {
                assert forall|d: DoodadDefinitionView, rest: Seq<char>|
                    s@.skip(i as int) == #[trigger] (spec_ser_definition(d) + rest) implies false by {
                    lemma_definition_positions(s@, i as int, d, rest);
                }
            }
            return None;
        },
    };
    let w = DoodadDefinition { model, initial_custom_props: props, tags, snap_dimensions: snap };
    proof {
        lemma_subrange_join(s@, i as int, j1 as int, j2 as int);
        lemma_subrange_join(s@, i as int, j2 as int, j3 as int);
        lemma_subrange_join(s@, i as int, j3 as int, j4 as int);
        lemma_subrange_join(s@, i as int, j4 as int, j5 as int);
        lemma_subrange_join(s@, i as int, j5 as int, j6 as int);
        lemma_subrange_join(s@, i as int, j6 as int, j7 as int);
        lemma_subrange_join(s@, i as int, j7 as int, j8 as int);
        lemma_subrange_join(s@, i as int, j8 as int, j9 as int);
        assert(s@.subrange(i as int, j9 as int) == spec_ser_definition(w@));
        assert forall|d: DoodadDefinitionView, rest: Seq<char>|
            s@.skip(i as int) == #[trigger] (spec_ser_definition(d) + rest) implies (w@ == d && j9
            == i + spec_ser_definition(d).len()) by {
            lemma_definition_positions(s@, i as int, d, rest);
            assert(w@ =~= d);
        }
    }
    Some((w, j9))
}

/// Canonical rendering of one named definition.
pub open spec fn spec_ser_defpair(p: (Seq<char>, DoodadDefinitionView)) -> Seq<char> {
    spec_ser_string(p.0) + seq![':'] + spec_ser_definition(p.1)
}

/// Comma-separated renderings of the later named definitions.
pub open spec fn spec_defpairs_rest(t: Seq<(Seq<char>, DoodadDefinitionView)>) -> Seq<char>
    decreases t.len(),
{
    if t.len() == 0 {
        Seq::empty()
    } else {
        seq![','] + spec_ser_defpair(t[0]) + spec_defpairs_rest(t.skip(1))
    }
}

/// Canonical rendering of the definition table.
pub open spec fn spec_ser_defmap(t: Seq<(Seq<char>, DoodadDefinitionView)>) -> Seq<char> {
    seq!['{'] + (if t.len() == 0 {
        Seq::empty()
    } else {
        spec_ser_defpair(t[0]) + spec_defpairs_rest(t.skip(1))
    }) + seq!['}']
}

proof fn lemma_defpairs_rest_push(
    t: Seq<(Seq<char>, DoodadDefinitionView)>,
    p: (Seq<char>, DoodadDefinitionView),
)
    ensures
        spec_defpairs_rest(t.push(p)) == spec_defpairs_rest(t) + seq![','] + spec_ser_defpair(p),
    decreases t.len(),
{
    if t.len() == 0 {
        assert(t.push(p)[0] == p);
        assert(t.push(p).skip(1) =~= Seq::<(Seq<char>, DoodadDefinitionView)>::empty());
        assert(spec_defpairs_rest(Seq::<(Seq<char>, DoodadDefinitionView)>::empty()) == Seq::<
            char,
        >::empty());
        assert(seq![','] + spec_ser_defpair(p) + Seq::<char>::empty() =~= Seq::<char>::empty()
            + seq![','] + spec_ser_defpair(p));
    } else {
        assert(t.push(p)[0] == t[0]);
        assert(t.push(p).skip(1) =~= t.skip(1).push(p));
        lemma_defpairs_rest_push(t.skip(1), p);
        assert(seq![','] + spec_ser_defpair(t[0]) + (spec_defpairs_rest(t.skip(1)) + seq![',']
            + spec_ser_defpair(p)) =~= (seq![','] + spec_ser_defpair(t[0]) + spec_defpairs_rest(
            t.skip(1),
        )) + seq![','] + spec_ser_defpair(p));
    }
}

/// Serializes the definition table onto `out`.
pub fn push_defmap(out: &mut Vec<char>, defs: &Vec<(String, DoodadDefinition)>)
    ensures
        final(out)@ == old(out)@ + spec_ser_defmap(defs_view(defs@)),
{
    out.push('{');
    let n = defs.len();
    let mut k: usize = 0;
    while k < n
        invariant
            n == defs@.len(),
            k <= n,
            k == 0 ==> out@ == old(out)@ + seq!['{'],
            k > 0 ==> out@ == old(out)@ + seq!['{'] + spec_ser_defpair(defs_view(defs@)[0])
                + spec_defpairs_rest(defs_view(defs@).subrange(1, k as int)),
        decreases n - k,
    {
        proof {
            assert(defs_view(defs@)[k as int] == (defs@[k as int].0@, defs@[k as int].1@));
        }
        if k > 0 {
            out.push(',');
        }
        let (name, def) = &defs[k];
        push_string(out, name.as_str());
        out.push(':');
        push_definition(out, def);
        proof {
            let dv = defs_view(defs@);
            if k == 0 {
                assert(dv.subrange(1, 1) =~= Seq::<(Seq<char>, DoodadDefinitionView)>::empty());
                assert(spec_defpairs_rest(dv.subrange(1, 1)) == Seq::<char>::empty());
                assert(out@ =~= old(out)@ + seq!['{'] + spec_ser_defpair(dv[0])
                    + spec_defpairs_rest(dv.subrange(1, 1)));
            } else {
                assert(dv.subrange(1, k + 1) =~= dv.subrange(1, k as int).push(dv[k as int]));
                lemma_defpairs_rest_push(dv.subrange(1, k as int), dv[k as int]);
                assert(out@ =~= old(out)@ + seq!['{'] + spec_ser_defpair(dv[0])
                    + spec_defpairs_rest(dv.subrange(1, k + 1)));
            }
        }
        k += 1;
    }
    out.push('}');
    proof {
        let dv = defs_view(defs@);
        if n == 0 {
            assert(out@ =~= old(out)@ + spec_ser_defmap(dv));
        } else {
            assert(dv.subrange(1, n as int) =~= dv.skip(1));
            assert(out@ =~= old(out)@ + spec_ser_defmap(dv));
        }
    }
}

/// Where one serialized named definition stands in the input.
proof fn lemma_defpair_at(
    s: Seq<char>,
    i: int,
    p: (Seq<char>, DoodadDefinitionView),
    tail: Seq<char>,
)
    requires
        0 <= i <= s.len(),
        s.skip(i) == spec_ser_defpair(p) + tail,
    ensures
        ({
            let pa = i + spec_ser_string(p.0).len();
            let pb = pa + 1 + spec_ser_definition(p.1).len();
            &&& pb <= s.len()
            &&& pb == i + spec_ser_defpair(p).len()
            &&& i < s.len()
            &&& s[i] == '"'
            &&& s.skip(i) == spec_ser_string(p.0) + s.skip(pa)
            &&& s.subrange(pa, pa + ":"@.len()) == ":"@
            &&& ":"@.len() == 1
            &&& s.skip(pa + 1) == spec_ser_definition(p.1) + s.skip(pb)
            &&& s.skip(pb) == tail
        }),
{
    reveal_strlit(":");
    assert(":"@ =~= seq![':']);
    let a = spec_ser_string(p.0);
    let b = spec_ser_definition(p.1);
    let t1 = ":"@ + (b + tail);
    assert(s.skip(i) =~= a + t1);
    lemma_skip_split(s, i, a, t1);
    let pa = i + a.len();
    lemma_skip_split(s, pa, ":"@, b + tail);
    lemma_skip_split(s, pa + 1, b, tail);
    assert(s[i] == '"') by {
        assert(s.skip(i)[0] == s[i]);
        assert((a + t1)[0] == a[0]);
        assert(a[0] == '"');
    }
}

/// Where the remaining named definitions and the closing brace stand.
proof fn lemma_defpairs_rest_positions(
    s: Seq<char>,
    i: int,
    t: Seq<(Seq<char>, DoodadDefinitionView)>,
    rest: Seq<char>,
)
    requires
        0 <= i <= s.len(),
        s.skip(i) == spec_defpairs_rest(t) + seq!['}'] + rest,
    ensures
        i < s.len(),
        "}"@.len() == 1,
        ","@.len() == 1,
        t.len() == 0 ==> s[i] == '}' && s.subrange(i, i + 1) == "}"@ && s.skip(i + 1) == rest,
        t.len() > 0 ==> s[i] == ',' && s.skip(i + 1) == spec_ser_defpair(t[0]) + (
        spec_defpairs_rest(t.skip(1)) + seq!['}'] + rest),
{
    reveal_strlit("}");
    reveal_strlit(",");
    assert("}"@ =~= seq!['}']);
    if t.len() == 0 {
        assert(s.skip(i) =~= seq!['}'] + rest);
        lemma_skip_split(s, i, seq!['}'], rest);
        assert(s[i] == '}') by {
            assert(s.subrange(i, i + 1)[0] == s[i]);
        }
        assert(s.subrange(i, i + 1) =~= "}"@);
    } else {
        let tail1 = spec_ser_defpair(t[0]) + (spec_defpairs_rest(t.skip(1)) + seq!['}'] + rest);
        assert(s.skip(i) =~= seq![','] + tail1);
        lemma_skip_split(s, i, seq![','], tail1);
        assert(s[i] == ',') by {
            assert(s.subrange(i, i + 1)[0] == s[i]);
        }
    }
}

/// Parses the remainder of the definition table, up to and including the
/// closing brace.
#[verifier::rlimit(100)]
#[verifier::spinoff_prover]
fn parse_defpairs_more(s: &Vec<char>, i: usize) -> (r: Option<
    (Vec<(String, DoodadDefinition)>, usize),
>)
    requires
        i <= s@.len(),
    ensures
        r matches Some((w, j)) ==> i < j <= s@.len() && s@.subrange(i as int, j as int)
            == spec_defpairs_rest(defs_view(w@)) + seq!['}'],
        forall|t: Seq<(Seq<char>, DoodadDefinitionView)>, rest: Seq<char>|
            s@.skip(i as int) == #[trigger] (spec_defpairs_rest(t) + seq!['}'] + rest) ==> (
            r matches Some((w, j)) && defs_view(w@) == t && j == i + spec_defpairs_rest(
                t,
            ).len() + 1),
    decreases s@.len() - i,
{
    proof {
        reveal_strlit("}");
        reveal_strlit(",");
        reveal_strlit(":");
        assert("}"@ =~= seq!['}']);
    }
    match expect_str(s, i, "}") {
        Some(j) => {
            let w: Vec<(String, DoodadDefinition)> = Vec::new();
            proof {
                assert(defs_view(w@) =~= Seq::<(Seq<char>, DoodadDefinitionView)>::empty());
                assert(spec_defpairs_rest(defs_view(w@)) == Seq::<char>::empty());
                assert(s@.subrange(i as int, j as int) =~= spec_defpairs_rest(defs_view(w@))
                    + seq!['}']);
                assert forall|t: Seq<(Seq<char>, DoodadDefinitionView)>, rest: Seq<char>|
                    s@.skip(i as int) == #[trigger] (spec_defpairs_rest(t) + seq!['}'] + rest) implies (
                defs_view(w@) == t && j == i + spec_defpairs_rest(t).len() + 1) by {
                    lemma_defpairs_rest_positions(s@, i as int, t, rest);
                    if t.len() > 0 {
                        assert(s@[i as int] == ',');
                        assert(s@[i as int] == '}') by {
                            assert(s@.subrange(i as int, i + 1)[0] == s@[i as int]);
                        }
                    }
                }
            }
            return Some((w, j));
        },
        None => {},
    }
    let j1 = match expect_str(s, i, ",") {
        Some(j) => j,
        None => {
            proof {
                assert forall|t: Seq<(Seq<char>, DoodadDefinitionView)>, rest: Seq<char>|
                    s@.skip(i as int) == #[trigger] (spec_defpairs_rest(t) + seq!['}'] + rest) implies false by {
                    lemma_defpairs_rest_positions(s@, i as int, t, rest);
                    if t.len() == 0 {
                    } else {
                        assert(s@.subrange(i as int, i + 1) =~= ","@);
                    }
                }
            }
            return None;
        },
    };
    let (name, j2) = match parse_string(s, j1) {
        Some(q) => q,
        None => {
            proof {
                assert forall|t: Seq<(Seq<char>, DoodadDefinitionView)>, rest: Seq<char>|
                    s@.skip(i as int) == #[trigger] (spec_defpairs_rest(t) + seq!['}'] + rest) implies false by {
                    lemma_defpairs_rest_positions(s@, i as int, t, rest);
                    if t.len() == 0 {
                        assert(s@.subrange(i as int, i + 1) =~= "}"@);
                    } else {
                        lemma_defpair_at(
                            s@,
                            i + 1,
                            t[0],
                            spec_defpairs_rest(t.skip(1)) + seq!['}'] + rest,
                        );
                    }
                }
            }
            return None;
        },
    };
    let j3 = match expect_str(s, j2, ":") {
        Some(j) => j,
        None => {
            proof {
                assert forall|t: Seq<(Seq<char>, DoodadDefinitionView)>, rest: Seq<char>|
                    s@.skip(i as int) == #[trigger] (spec_defpairs_rest(t) + seq!['}'] + rest) implies false by {
                    lemma_defpairs_rest_positions(s@, i as int, t, rest);
                    if t.len() == 0 {
                        assert(s@.subrange(i as int, i + 1) =~= "}"@);
                    } else {
                        lemma_defpair_at(
                            s@,
                            i + 1,
                            t[0],
                            spec_defpairs_rest(t.skip(1)) + seq!['}'] + rest,
                        );
                    }
                }
            }
            return None;
        },
    };
    let (def, j4) = match parse_definition(s, j3) {
        Some(q) => q,
        None => {
            proof {
                assert forall|t: Seq<(Seq<char>, DoodadDefinitionView)>, rest: Seq<char>|
                    s@.skip(i as int) == #[trigger] (spec_defpairs_rest(t) + seq!['}'] + rest) implies false by {
                    lemma_defpairs_rest_positions(s@, i as int, t, rest);
                    if t.len() == 0 {
                        assert(s@.subrange(i as int, i + 1) =~= "}"@);
                    } else {
                        lemma_defpair_at(
                            s@,
                            i + 1,
                            t[0],
                            spec_defpairs_rest(t.skip(1)) + seq!['}'] + rest,
                        );
                    }
                }
            }
            return None;
        },
    };
    let (tail, j5) = match parse_defpairs_more(s, j4) {
        Some(q) => q,
        None => {
            proof {
                assert forall|t: Seq<(Seq<char>, DoodadDefinitionView)>, rest: Seq<char>|
                    s@.skip(i as int) == #[trigger] (spec_defpairs_rest(t) + seq!['}'] + rest) implies false by {
                    lemma_defpairs_rest_positions(s@, i as int, t, rest);
                    if t.len() == 0 {
                        assert(s@.subrange(i as int, i + 1) =~= "}"@);
                    } else {
                        lemma_defpair_at(
                            s@,
                            i + 1,
                            t[0],
                            spec_defpairs_rest(t.skip(1)) + seq!['}'] + rest,
                        );
                    }
                }
            }
            return None;
        },
    };
    let mut w = tail;
    w.insert(0, (name, def));
    proof {
        let pv = (name@, def@);
        let tv = defs_view(tail@);
        assert(defs_view(w@) =~= seq![pv] + tv);
        assert((seq![pv] + tv)[0] == pv);
        assert((seq![pv] + tv).skip(1) =~= tv);
        assert(spec_defpairs_rest(defs_view(w@)) == seq![','] + spec_ser_defpair(pv)
            + spec_defpairs_rest(tv));
        assert(s@.subrange(i as int, j1 as int) =~= seq![',']);
        lemma_subrange_join(s@, i as int, j1 as int, j2 as int);
        lemma_subrange_join(s@, i as int, j2 as int, j3 as int);
        lemma_subrange_join(s@, i as int, j3 as int, j4 as int);
        assert(s@.subrange(i as int, j4 as int) == seq![','] + spec_ser_string(name@) + ":"@
            + spec_ser_definition(def@));
        lemma_subrange_join(s@, i as int, j4 as int, j5 as int);
        assert(s@.subrange(i as int, j5 as int) =~= spec_defpairs_rest(defs_view(w@))
            + seq!['}']);
        assert forall|t: Seq<(Seq<char>, DoodadDefinitionView)>, rest: Seq<char>|
            s@.skip(i as int) == #[trigger] (spec_defpairs_rest(t) + seq!['}'] + rest) implies (
        defs_view(w@) == t && j5 == i + spec_defpairs_rest(t).len() + 1) by {
            lemma_defpairs_rest_positions(s@, i as int, t, rest);
            if t.len() == 0 {
                assert(s@.subrange(i as int, i + 1) =~= "}"@);
            } else {
                lemma_defpair_at(s@, i + 1, t[0], spec_defpairs_rest(t.skip(1)) + seq!['}'] + rest);
                assert(defs_view(w@) =~= t) by {
                    assert(defs_view(tail@) == t.skip(1));
                    assert(pv == t[0]);
                    assert(t =~= seq![t[0]] + t.skip(1));
                }
            }
        }
    }
    Some((w, j5))
}

/// Canonical rendering of the whole manifest.
pub open spec fn spec_ser_manifest(
    tags: Seq<Seq<char>>,
    defs: Seq<(Seq<char>, DoodadDefinitionView)>,
) -> Seq<char> {
    "(doodad_tags:"@ + spec_ser_strlist(tags) + ",doodad_definitions:"@ + spec_ser_defmap(defs)
        + ")"@
}

/// Serializes a manifest into its canonical text.
pub fn serialize_doodad_manifest(m: &DoodadManifest) -> (out: Vec<char>)
    ensures
        out@ == spec_ser_manifest(strings_view(m.doodad_tags@), defs_view(m.doodad_definitions@)),
{
    let mut out: Vec<char> = Vec::new();
    push_str_chars(&mut out, "(doodad_tags:");
    push_strlist(&mut out, &m.doodad_tags);
    push_str_chars(&mut out, ",doodad_definitions:");
    push_defmap(&mut out, &m.doodad_definitions);
    push_str_chars(&mut out, ")");
    proof {
        assert(out@ =~= spec_ser_manifest(
            strings_view(m.doodad_tags@),
            defs_view(m.doodad_definitions@),
        ));
    }
    out
}

/// Where each part of a serialized manifest stands in the input.
proof fn lemma_manifest_positions(
    s: Seq<char>,
    tags: Seq<Seq<char>>,
    defs: Seq<(Seq<char>, DoodadDefinitionView)>,
)
    requires
        s == spec_ser_manifest(tags, defs),
    ensures
        ({
            let st = spec_ser_strlist(tags);
            let sd = spec_ser_defmap(defs);
            let p1 = "(doodad_tags:"@.len() as int;
            let p2 = p1 + st.len();
            let p3 = p2 + ",doodad_definitions:"@.len();
            let p4 = p3 + sd.len();
            let p5 = p4 + ")"@.len();
            &&& p5 == s.len()
            &&& s.subrange(0, p1) == "(doodad_tags:"@
            &&& s.skip(p1) == st + s.skip(p2)
            &&& s.subrange(p2, p3) == ",doodad_definitions:"@
            &&& s.skip(p3) == sd + s.skip(p4)
            &&& s.subrange(p4, p5) == ")"@
        }),
{
    reveal_strlit("(doodad_tags:");
    let st = spec_ser_strlist(tags);
    let sd = spec_ser_defmap(defs);
    let t1 = st + (",doodad_definitions:"@ + (sd + (")"@ + Seq::<char>::empty())));
    assert(s.skip(0) =~= "(doodad_tags:"@ + t1);
    lemma_skip_split(s, 0, "(doodad_tags:"@, t1);
    let p1 = "(doodad_tags:"@.len() as int;
    lemma_skip_split(s, p1, st, ",doodad_definitions:"@ + (sd + (")"@ + Seq::<char>::empty())));
    let p2 = p1 + st.len();
    lemma_skip_split(s, p2, ",doodad_definitions:"@, sd + (")"@ + Seq::<char>::empty()));
    let p3 = p2 + ",doodad_definitions:"@.len();
    lemma_skip_split(s, p3, sd, ")"@ + Seq::<char>::empty());
    let p4 = p3 + sd.len();
    lemma_skip_split(s, p4, ")"@, Seq::<char>::empty());
}

/// Where the definition-table half of the manifest decomposes.
proof fn lemma_defmap_positions(
    s: Seq<char>,
    i: int,
    t: Seq<(Seq<char>, DoodadDefinitionView)>,
    rest: Seq<char>,
)
    requires
        0 <= i <= s.len(),
        s.skip(i) == spec_ser_defmap(t) + rest,
    ensures
        i < s.len(),
        i + spec_ser_defmap(t).len() <= s.len(),
        s[i] == '{',
        s.subrange(i, i + 1) == "{"@,
        "{"@.len() == 1,
        t.len() == 0 ==> s.skip(i + 1) == seq!['}'] + rest && s.subrange(i + 1, i + 2) == "}"@,
        t.len() > 0 ==> s.skip(i + 1) == spec_ser_defpair(t[0]) + (spec_defpairs_rest(t.skip(1))
            + seq!['}'] + rest),
        s.skip(i + spec_ser_defmap(t).len()) == rest,
{
    reveal_strlit("{");
    reveal_strlit("}");
    assert("{"@ =~= seq!['{']);
    assert("}"@ =~= seq!['}']);
    if t.len() == 0 {
        assert(s.skip(i) =~= seq!['{'] + (seq!['}'] + rest));
        lemma_skip_split(s, i, seq!['{'], seq!['}'] + rest);
        lemma_skip_split(s, i + 1, seq!['}'], rest);
        assert(s[i] == '{') by {
            assert(s.subrange(i, i + 1)[0] == s[i]);
        }
        assert(s.subrange(i, i + 1) =~= "{"@);
        assert(s.subrange(i + 1, i + 2) =~= "}"@);
    } else {
        let t1 = spec_ser_defpair(t[0]) + (spec_defpairs_rest(t.skip(1)) + seq!['}'] + rest);
        assert(s.skip(i) =~= seq!['{'] + t1);
        lemma_skip_split(s, i, seq!['{'], t1);
        assert(s[i] == '{') by {
            assert(s.subrange(i, i + 1)[0] == s[i]);
        }
        assert(s.subrange(i, i + 1) =~= "{"@);
        lemma_skip_split(s, i + 1, spec_ser_defpair(t[0]), spec_defpairs_rest(t.skip(1))
            + seq!['}'] + rest);
        assert(spec_defpairs_rest(t.skip(1)) + seq!['}'] + rest =~= spec_defpairs_rest(t.skip(1))
            + (seq!['}'] + rest));
        lemma_skip_split(
            s,
            i + 1 + spec_ser_defpair(t[0]).len(),
            spec_defpairs_rest(t.skip(1)),
            seq!['}'] + rest,
        );
        lemma_skip_split(
            s,
            i + 1 + spec_ser_defpair(t[0]).len() + spec_defpairs_rest(t.skip(1)).len(),
            seq!['}'],
            rest,
        );
    }
}

/// Parses the whole definition table.
#[verifier::rlimit(100)]
#[verifier::spinoff_prover]
fn parse_defmap(s: &Vec<char>, i: usize) -> (r: Option<(Vec<(String, DoodadDefinition)>, usize)>)
    requires
        i <= s@.len(),
    ensures
        r matches Some((w, j)) ==> i < j <= s@.len() && s@.subrange(i as int, j as int)
            == spec_ser_defmap(defs_view(w@)),
        forall|t: Seq<(Seq<char>, DoodadDefinitionView)>, rest: Seq<char>|
            s@.skip(i as int) == #[trigger] (spec_ser_defmap(t) + rest) ==> (r matches Some((w, j))
                && defs_view(w@) == t && j == i + spec_ser_defmap(t).len()),
{
    proof {
        reveal_strlit("{");
        reveal_strlit("}");
        reveal_strlit(":");
        assert("{"@ =~= seq!['{']);
        assert("}"@ =~= seq!['}']);
        assert(":"@ =~= seq![':']);
    }
    let j1 = match expect_str(s, i, "{") {
        Some(j) => j,
        None => {
            proof {
                assert forall|t: Seq<(Seq<char>, DoodadDefinitionView)>, rest: Seq<char>|
                    s@.skip(i as int) == #[trigger] (spec_ser_defmap(t) + rest) implies false by {
                    lemma_defmap_positions(s@, i as int, t, rest);
                }
            }
            return None;
        },
    };
    match expect_str(s, j1, "}") {
        Some(j2) => {
            let w: Vec<(String, DoodadDefinition)> = Vec::new();
            proof {
                assert(defs_view(w@) =~= Seq::<(Seq<char>, DoodadDefinitionView)>::empty());
                assert(s@.subrange(i as int, j2 as int) =~= spec_ser_defmap(defs_view(w@)));
                assert forall|t: Seq<(Seq<char>, DoodadDefinitionView)>, rest: Seq<char>|
                    s@.skip(i as int) == #[trigger] (spec_ser_defmap(t) + rest) implies (defs_view(
                    w@,
                ) == t && j2 == i + spec_ser_defmap(t).len()) by {
                    lemma_defmap_positions(s@, i as int, t, rest);
                    if t.len() > 0 {
                        lemma_defpair_at(
                            s@,
                            j1 as int,
                            t[0],
                            spec_defpairs_rest(t.skip(1)) + seq!['}'] + rest,
                        );
                        assert(s@[j1 as int] == '"');
                        assert(s@[j1 as int] == '}') by {
                            assert(s@.subrange(j1 as int, j1 + 1)[0] == s@[j1 as int]);
                        }
                    }
                }
            }
            return Some((w, j2));
        },
        None => {},
    }
    let (name, j2) = match parse_string(s, j1) {
        Some(q) => q,
        None => {
            proof {
                assert forall|t: Seq<(Seq<char>, DoodadDefinitionView)>, rest: Seq<char>|
                    s@.skip(i as int) == #[trigger] (spec_ser_defmap(t) + rest) implies false by {
                    lemma_defmap_positions(s@, i as int, t, rest);
                    if t.len() > 0 {
                        lemma_defpair_at(
                            s@,
                            j1 as int,
                            t[0],
                            spec_defpairs_rest(t.skip(1)) + seq!['}'] + rest,
                        );
                    } else {
                        assert(s@.subrange(j1 as int, j1 + 1) =~= "}"@);
                    }
                }
            }
            return None;
        },
    };
    let j3 = match expect_str(s, j2, ":") {
        Some(j) => j,
        None => {
            proof {
                assert forall|t: Seq<(Seq<char>, DoodadDefinitionView)>, rest: Seq<char>|
                    s@.skip(i as int) == #[trigger] (spec_ser_defmap(t) + rest) implies false by {
                    lemma_defmap_positions(s@, i as int, t, rest);
                    if t.len() > 0 {
                        lemma_defpair_at(
                            s@,
                            j1 as int,
                            t[0],
                            spec_defpairs_rest(t.skip(1)) + seq!['}'] + rest,
                        );
                    } else {
                        assert(s@.subrange(j1 as int, j1 + 1) =~= "}"@);
                    }
                }
            }
            return None;
        },
    };
    let (def, j4) = match parse_definition(s, j3) {
        Some(q) => q,
        None => {
            proof {
                assert forall|t: Seq<(Seq<char>, DoodadDefinitionView)>, rest: Seq<char>|
                    s@.skip(i as int) == #[trigger] (spec_ser_defmap(t) + rest) implies false by {
                    lemma_defmap_positions(s@, i as int, t, rest);
                    if t.len() > 0 {
                        lemma_defpair_at(
                            s@,
                            j1 as int,
                            t[0],
                            spec_defpairs_rest(t.skip(1)) + seq!['}'] + rest,
                        );
                    } else {
                        assert(s@.subrange(j1 as int, j1 + 1) =~= "}"@);
                    }
                }
            }
            return None;
        },
    };
    let (tail, j5) = match parse_defpairs_more(s, j4) {
        Some(q) => q,
        None => {
            proof {
                assert forall|t: Seq<(Seq<char>, DoodadDefinitionView)>, rest: Seq<char>|
                    s@.skip(i as int) == #[trigger] (spec_ser_defmap(t) + rest) implies false by {
                    lemma_defmap_positions(s@, i as int, t, rest);
                    if t.len() > 0 {
                        lemma_defpair_at(
                            s@,
                            j1 as int,
                            t[0],
                            spec_defpairs_rest(t.skip(1)) + seq!['}'] + rest,
                        );
                    } else {
                        assert(s@.subrange(j1 as int, j1 + 1) =~= "}"@);
                    }
                }
            }
            return None;
        },
    };
    let mut w = tail;
    w.insert(0, (name, def));
    proof {
        let pv = (name@, def@);
        let tv = defs_view(tail@);
        assert(defs_view(w@) =~= seq![pv] + tv);
        assert((seq![pv] + tv)[0] == pv);
        assert((seq![pv] + tv).skip(1) =~= tv);
        assert(s@.subrange(i as int, j1 as int) =~= seq!['{']);
        lemma_subrange_join(s@, i as int, j1 as int, j2 as int);
        lemma_subrange_join(s@, i as int, j2 as int, j3 as int);
        lemma_subrange_join(s@, i as int, j3 as int, j4 as int);
        lemma_subrange_join(s@, i as int, j4 as int, j5 as int);
        assert(s@.subrange(i as int, j5 as int) =~= spec_ser_defmap(defs_view(w@)));
        assert forall|t: Seq<(Seq<char>, DoodadDefinitionView)>, rest: Seq<char>|
            s@.skip(i as int) == #[trigger] (spec_ser_defmap(t) + rest) implies (defs_view(w@) == t
            && j5 == i + spec_ser_defmap(t).len()) by {
            lemma_defmap_positions(s@, i as int, t, rest);
            if t.len() == 0 {
                assert(s@.subrange(j1 as int, j1 + 1) =~= "}"@);
            } else {
                lemma_defpair_at(s@, j1 as int, t[0], spec_defpairs_rest(t.skip(1)) + seq!['}']
                    + rest);
                assert(defs_view(w@) =~= t) by {
                    assert(defs_view(tail@) == t.skip(1));
                    assert(pv == t[0]);
                    assert(t =~= seq![t[0]] + t.skip(1));
                }
            }
        }
    }
    Some((w, j5))
}

/// Parses the canonical text of a whole manifest.
///
/// Together with `serialize_doodad_manifest` this is the manifest's
/// round-trip guarantee: the serialization of any manifest parses back to
/// the same mathematical value, and nothing else is accepted.
#[verifier::rlimit(100)]
#[verifier::spinoff_prover]
pub fn parse_doodad_manifest(text: &Vec<char>) -> (r: Option<DoodadManifest>)
    ensures
        r matches Some(m) ==> text@ == spec_ser_manifest(
            strings_view(m.doodad_tags@),
            defs_view(m.doodad_definitions@),
        ),
        forall|tags: Seq<Seq<char>>, defs: Seq<(Seq<char>, DoodadDefinitionView)>|
            text@ == #[trigger] spec_ser_manifest(tags, defs) ==> (r matches Some(m)
                && strings_view(m.doodad_tags@) == tags && defs_view(m.doodad_definitions@)
                == defs),
{
    let len = text.len();
    let j1 = match expect_str(text, 0, "(doodad_tags:") {
        Some(j) => j,
        None => {
            proof {
                assert forall|tags: Seq<Seq<char>>, defs: Seq<(Seq<char>, DoodadDefinitionView)>|
                    text@ == #[trigger] spec_ser_manifest(tags, defs) implies false by {
                    lemma_manifest_positions(text@, tags, defs);
                }
            }
            return None;
        },
    };
    let (doodad_tags, j2) = match parse_strlist(text, j1) {
        Some(q) => q,
        None => {
            proof {
                assert forall|tags: Seq<Seq<char>>, defs: Seq<(Seq<char>, DoodadDefinitionView)>|
                    text@ == #[trigger] spec_ser_manifest(tags, defs) implies false by {
                    lemma_manifest_positions(text@, tags, defs);
                }
            }
            return None;
        },
    };
    let j3 = match expect_str(text, j2, ",doodad_definitions:") {
        Some(j) => j,
        None => {
            proof {
                assert forall|tags: Seq<Seq<char>>, defs: Seq<(Seq<char>, DoodadDefinitionView)>|
                    text@ == #[trigger] spec_ser_manifest(tags, defs) implies false by {
                    lemma_manifest_positions(text@, tags, defs);
                }
            }
            return None;
        },
    };
    let (doodad_definitions, j4) = match parse_defmap(text, j3) {
        Some(q) => q,
        None => {
            proof {
                assert forall|tags: Seq<Seq<char>>, defs: Seq<(Seq<char>, DoodadDefinitionView)>|
                    text@ == #[trigger] spec_ser_manifest(tags, defs) implies false by {
                    lemma_manifest_positions(text@, tags, defs);
                }
            }
            return None;
        },
    };
    let j5 = match expect_str(text, j4, ")") {
        Some(j) => j,
        None => {
            proof {
                assert forall|tags: Seq<Seq<char>>, defs: Seq<(Seq<char>, DoodadDefinitionView)>|
                    text@ == #[trigger] spec_ser_manifest(tags, defs) implies false by {
                    lemma_manifest_positions(text@, tags, defs);
                }
            }
            return None;
        },
    };
    if j5 != len {
        proof {
            assert forall|tags: Seq<Seq<char>>, defs: Seq<(Seq<char>, DoodadDefinitionView)>|
                text@ == #[trigger] spec_ser_manifest(tags, defs) implies false by {
                lemma_manifest_positions(text@, tags, defs);
            }
        }
        return None;
    }
    let w = DoodadManifest { doodad_tags, doodad_definitions };
    proof {
        assert(text@.subrange(0, j1 as int) =~= "(doodad_tags:"@);
        lemma_subrange_join(text@, 0, j1 as int, j2 as int);
        lemma_subrange_join(text@, 0, j2 as int, j3 as int);
        lemma_subrange_join(text@, 0, j3 as int, j4 as int);
        lemma_subrange_join(text@, 0, j4 as int, j5 as int);
        assert(text@ == text@.subrange(0, len as int));
        assert(text@ =~= spec_ser_manifest(
            strings_view(w.doodad_tags@),
            defs_view(w.doodad_definitions@),
        ));
        assert forall|tags: Seq<Seq<char>>, defs: Seq<(Seq<char>, DoodadDefinitionView)>|
            text@ == #[trigger] spec_ser_manifest(tags, defs) implies (strings_view(
            w.doodad_tags@,
        ) == tags && defs_view(w.doodad_definitions@) == defs) by {
            lemma_manifest_positions(text@, tags, defs);
        }
    }
    Some(w)
}

} // verus!
