//! The canonical JSON form of a [`WindowSettings`] value, with a verified
//! encoder and decoder.
//!
//! Every settings value has exactly one encoding, given by [`settings_json`]:
//! one JSON object, fixed key order, no whitespace, canonical numerals.
//! [`encode_settings`] produces that byte string and [`decode_settings`]
//! accepts it and nothing else, so decoding inverts encoding exactly.

use vstd::prelude::*;
use crate::decimal::digits;
use crate::decimal::digits_i;
use crate::decimal::has_at;
use crate::decimal::int_at;
use crate::decimal::lemma_has_at_index;
use crate::decimal::lemma_has_at_join;
use crate::decimal::lemma_has_at_split;
use crate::decimal::lemma_int_at_unique;
use crate::decimal::lemma_nat_at_unique;
use crate::decimal::nat_at;
use crate::decimal::parse_i32;
use crate::decimal::push_i32;
use crate::decimal::push_u32;
use crate::decimal::scan_u32;
use crate::settings::MonitorSelection;
use crate::settings::WindowMode;
use crate::settings::WindowPosition;
use crate::settings::WindowSettings;

verus! {

/// The bytes of `{"mode":`.
pub open spec fn lit_open_obj() -> Seq<u8> {
    seq![123u8, 34u8, 109u8, 111u8, 100u8, 101u8, 34u8, 58u8]
}

fn lit_open_obj_v() -> (v: Vec<u8>)
    ensures
        v@ == lit_open_obj(),
{
    let mut v: Vec<u8> = Vec::new();
    v.push(123);
    v.push(34);
    v.push(109);
    v.push(111);
    v.push(100);
    v.push(101);
    v.push(34);
    v.push(58);
    proof {
        assert(v@ =~= lit_open_obj());
    }
    v
}

/// The bytes of `"windowed"`.
pub open spec fn lit_tok_windowed() -> Seq<u8> {
    seq![34u8, 119u8, 105u8, 110u8, 100u8, 111u8, 119u8, 101u8, 100u8, 34u8]
}

fn lit_tok_windowed_v() -> (v: Vec<u8>)
    ensures
        v@ == lit_tok_windowed(),
{
    let mut v: Vec<u8> = Vec::new();
    v.push(34);
    v.push(119);
    v.push(105);
    v.push(110);
    v.push(100);
    v.push(111);
    v.push(119);
    v.push(101);
    v.push(100);
    v.push(34);
    proof {
        assert(v@ =~= lit_tok_windowed());
    }
    v
}

/// The bytes of `"borderless_fullscreen"`.
pub open spec fn lit_tok_borderless() -> Seq<u8> {
    seq![34u8, 98u8, 111u8, 114u8, 100u8, 101u8, 114u8, 108u8, 101u8, 115u8, 115u8, 95u8, 102u8, 117u8, 108u8, 108u8, 115u8, 99u8, 114u8, 101u8, 101u8, 110u8, 34u8]
}

fn lit_tok_borderless_v() -> (v: Vec<u8>)
    ensures
        v@ == lit_tok_borderless(),
{
    let mut v: Vec<u8> = Vec::new();
    v.push(34);
    v.push(98);
    v.push(111);
    v.push(114);
    v.push(100);
    v.push(101);
    v.push(114);
    v.push(108);
    v.push(101);
    v.push(115);
    v.push(115);
    v.push(95);
    v.push(102);
    v.push(117);
    v.push(108);
    v.push(108);
    v.push(115);
    v.push(99);
    v.push(114);
    v.push(101);
    v.push(101);
    v.push(110);
    v.push(34);
    proof {
        assert(v@ =~= lit_tok_borderless());
    }
    v
}

/// The bytes of `"sized_fullscreen"`.
pub open spec fn lit_tok_sized() -> Seq<u8> {
    seq![34u8, 115u8, 105u8, 122u8, 101u8, 100u8, 95u8, 102u8, 117u8, 108u8, 108u8, 115u8, 99u8, 114u8, 101u8, 101u8, 110u8, 34u8]
}

fn lit_tok_sized_v() -> (v: Vec<u8>)
    ensures
        v@ == lit_tok_sized(),
{
    let mut v: Vec<u8> = Vec::new();
    v.push(34);
    v.push(115);
    v.push(105);
    v.push(122);
    v.push(101);
    v.push(100);
    v.push(95);
    v.push(102);
    v.push(117);
    v.push(108);
    v.push(108);
    v.push(115);
    v.push(99);
    v.push(114);
    v.push(101);
    v.push(101);
    v.push(110);
    v.push(34);
    proof {
        assert(v@ =~= lit_tok_sized());
    }
    v
}

/// The bytes of `"fullscreen"`.
pub open spec fn lit_tok_fullscreen() -> Seq<u8> {
    seq![34u8, 102u8, 117u8, 108u8, 108u8, 115u8, 99u8, 114u8, 101u8, 101u8, 110u8, 34u8]
}

fn lit_tok_fullscreen_v() -> (v: Vec<u8>)
    ensures
        v@ == lit_tok_fullscreen(),
{
    let mut v: Vec<u8> = Vec::new();
    v.push(34);
    v.push(102);
    v.push(117);
    v.push(108);
    v.push(108);
    v.push(115);
    v.push(99);
    v.push(114);
    v.push(101);
    v.push(101);
    v.push(110);
    v.push(34);
    proof {
        assert(v@ =~= lit_tok_fullscreen());
    }
    v
}

/// The bytes of `,"position":`.
pub open spec fn lit_key_position() -> Seq<u8> {
    seq![44u8, 34u8, 112u8, 111u8, 115u8, 105u8, 116u8, 105u8, 111u8, 110u8, 34u8, 58u8]
}

fn lit_key_position_v() -> (v: Vec<u8>)
    ensures
        v@ == lit_key_position(),
{
    let mut v: Vec<u8> = Vec::new();
    v.push(44);
    v.push(34);
    v.push(112);
    v.push(111);
    v.push(115);
    v.push(105);
    v.push(116);
    v.push(105);
    v.push(111);
    v.push(110);
    v.push(34);
    v.push(58);
    proof {
        assert(v@ =~= lit_key_position());
    }
    v
}

/// The bytes of `"automatic"`.
pub open spec fn lit_tok_automatic() -> Seq<u8> {
    seq![34u8, 97u8, 117u8, 116u8, 111u8, 109u8, 97u8, 116u8, 105u8, 99u8, 34u8]
}

fn lit_tok_automatic_v() -> (v: Vec<u8>)
    ensures
        v@ == lit_tok_automatic(),
{
    let mut v: Vec<u8> = Vec::new();
    v.push(34);
    v.push(97);
    v.push(117);
    v.push(116);
    v.push(111);
    v.push(109);
    v.push(97);
    v.push(116);
    v.push(105);
    v.push(99);
    v.push(34);
    proof {
        assert(v@ =~= lit_tok_automatic());
    }
    v
}

/// The bytes of `{"centered":`.
pub open spec fn lit_open_centered() -> Seq<u8> {
    seq![123u8, 34u8, 99u8, 101u8, 110u8, 116u8, 101u8, 114u8, 101u8, 100u8, 34u8, 58u8]
}

fn lit_open_centered_v() -> (v: Vec<u8>)
    ensures
        v@ == lit_open_centered(),
{
    let mut v: Vec<u8> = Vec::new();
    v.push(123);
    v.push(34);
    v.push(99);
    v.push(101);
    v.push(110);
    v.push(116);
    v.push(101);
    v.push(114);
    v.push(101);
    v.push(100);
    v.push(34);
    v.push(58);
    proof {
        assert(v@ =~= lit_open_centered());
    }
    v
}

/// The bytes of `{"at":[`.
pub open spec fn lit_open_at() -> Seq<u8> {
    seq![123u8, 34u8, 97u8, 116u8, 34u8, 58u8, 91u8]
}

fn lit_open_at_v() -> (v: Vec<u8>)
    ensures
        v@ == lit_open_at(),
{
    let mut v: Vec<u8> = Vec::new();
    v.push(123);
    v.push(34);
    v.push(97);
    v.push(116);
    v.push(34);
    v.push(58);
    v.push(91);
    proof {
        assert(v@ =~= lit_open_at());
    }
    v
}

/// The bytes of `"current"`.
pub open spec fn lit_tok_current() -> Seq<u8> {
    seq![34u8, 99u8, 117u8, 114u8, 114u8, 101u8, 110u8, 116u8, 34u8]
}

fn lit_tok_current_v() -> (v: Vec<u8>)
    ensures
        v@ == lit_tok_current(),
{
    let mut v: Vec<u8> = Vec::new();
    v.push(34);
    v.push(99);
    v.push(117);
    v.push(114);
    v.push(114);
    v.push(101);
    v.push(110);
    v.push(116);
    v.push(34);
    proof {
        assert(v@ =~= lit_tok_current());
    }
    v
}

/// The bytes of `"primary"`.
pub open spec fn lit_tok_primary() -> Seq<u8> {
    seq![34u8, 112u8, 114u8, 105u8, 109u8, 97u8, 114u8, 121u8, 34u8]
}

fn lit_tok_primary_v() -> (v: Vec<u8>)
    ensures
        v@ == lit_tok_primary(),
{
    let mut v: Vec<u8> = Vec::new();
    v.push(34);
    v.push(112);
    v.push(114);
    v.push(105);
    v.push(109);
    v.push(97);
    v.push(114);
    v.push(121);
    v.push(34);
    proof {
        assert(v@ =~= lit_tok_primary());
    }
    v
}

/// The bytes of `{"index":`.
pub open spec fn lit_open_index() -> Seq<u8> {
    seq![123u8, 34u8, 105u8, 110u8, 100u8, 101u8, 120u8, 34u8, 58u8]
}

fn lit_open_index_v() -> (v: Vec<u8>)
    ensures
        v@ == lit_open_index(),
{
    let mut v: Vec<u8> = Vec::new();
    v.push(123);
    v.push(34);
    v.push(105);
    v.push(110);
    v.push(100);
    v.push(101);
    v.push(120);
    v.push(34);
    v.push(58);
    proof {
        assert(v@ =~= lit_open_index());
    }
    v
}

/// The bytes of `}`.
pub open spec fn lit_close_brace() -> Seq<u8> {
    seq![125u8]
}

fn lit_close_brace_v() -> (v: Vec<u8>)
    ensures
        v@ == lit_close_brace(),
{
    let mut v: Vec<u8> = Vec::new();
    v.push(125);
    proof {
        assert(v@ =~= lit_close_brace());
    }
    v
}

/// The bytes of `,`.
pub open spec fn lit_comma() -> Seq<u8> {
    seq![44u8]
}

fn lit_comma_v() -> (v: Vec<u8>)
    ensures
        v@ == lit_comma(),
{
    let mut v: Vec<u8> = Vec::new();
    v.push(44);
    proof {
        assert(v@ =~= lit_comma());
    }
    v
}

/// The bytes of `]}`.
pub open spec fn lit_close_arr() -> Seq<u8> {
    seq![93u8, 125u8]
}

fn lit_close_arr_v() -> (v: Vec<u8>)
    ensures
        v@ == lit_close_arr(),
{
    let mut v: Vec<u8> = Vec::new();
    v.push(93);
    v.push(125);
    proof {
        assert(v@ =~= lit_close_arr());
    }
    v
}

/// The bytes of `,"resolution":[`.
pub open spec fn lit_key_resolution() -> Seq<u8> {
    seq![44u8, 34u8, 114u8, 101u8, 115u8, 111u8, 108u8, 117u8, 116u8, 105u8, 111u8, 110u8, 34u8, 58u8, 91u8]
}

fn lit_key_resolution_v() -> (v: Vec<u8>)
    ensures
        v@ == lit_key_resolution(),
{
    let mut v: Vec<u8> = Vec::new();
    v.push(44);
    v.push(34);
    v.push(114);
    v.push(101);
    v.push(115);
    v.push(111);
    v.push(108);
    v.push(117);
    v.push(116);
    v.push(105);
    v.push(111);
    v.push(110);
    v.push(34);
    v.push(58);
    v.push(91);
    proof {
        assert(v@ =~= lit_key_resolution());
    }
    v
}
/// The JSON token of a window mode.
pub open spec fn mode_json(m: WindowMode) -> Seq<u8> {
    match m {
        WindowMode::Windowed => lit_tok_windowed(),
        WindowMode::BorderlessFullscreen => lit_tok_borderless(),
        WindowMode::SizedFullscreen => lit_tok_sized(),
        WindowMode::Fullscreen => lit_tok_fullscreen(),
    }
}

/// The JSON form of a monitor selection.
pub open spec fn monitor_json(m: MonitorSelection) -> Seq<u8> {
    match m {
        MonitorSelection::Current => lit_tok_current(),
        MonitorSelection::Primary => lit_tok_primary(),
        MonitorSelection::Index(n) => lit_open_index() + digits(n as nat) + lit_close_brace(),
    }
}

/// The JSON form of a window position.
pub open spec fn pos_json(p: WindowPosition) -> Seq<u8> {
    match p {
        WindowPosition::Automatic => lit_tok_automatic(),
        WindowPosition::Centered(m) => lit_open_centered() + monitor_json(m) + lit_close_brace(),
        WindowPosition::At(x, y) => lit_open_at() + digits_i(x as int) + lit_comma() + digits_i(
            y as int,
        ) + lit_close_arr(),
    }
}

/// The one canonical JSON document that encodes a settings value.
pub open spec fn settings_json(v: WindowSettings) -> Seq<u8> {
    lit_open_obj() + mode_json(v.mode) + lit_key_position() + pos_json(v.position)
        + lit_key_resolution() + digits(v.resolution.width as nat) + lit_comma() + digits(
        v.resolution.height as nat,
    ) + lit_close_arr()
}

/// Matches the bytes of `lit` at position `i`, and reports a mismatch
/// exactly when the literal does not stand there.
#[verifier::loop_isolation(false)]
fn eat(bytes: &[u8], i: usize, lit: &Vec<u8>) -> (r: Option<usize>)
    requires
        i <= bytes@.len(),
    ensures
        match r {
            Some(j) => j == i + lit@.len() && j <= bytes@.len() && has_at(bytes@, i as int, lit@),
            None => !has_at(bytes@, i as int, lit@),
        },
{
    let len: usize = bytes.len();
    let n: usize = lit.len();
    if n > len - i {
        return None;
    }
    let mut k: usize = 0;
    while k < n
        invariant
            0 <= k <= n,
            forall|t: int| 0 <= t < k ==> bytes@[i + t] == lit@[t],
        decreases n - k,
    {
        if bytes[i + k] != lit[k] {
            proof {
                if has_at(bytes@, i as int, lit@) {
                    lemma_has_at_index(bytes@, i as int, lit@, k as int);
                }
            }
            return None;
        }
        k = k + 1;
    }
    proof {
        assert(bytes@.subrange(i as int, i + n) =~= lit@);
    }
    Some(i + n)
}

/// Two window modes whose tokens stand at one position are the same mode:
/// the four tokens differ in their second byte.
proof fn lemma_mode_unique(s: Seq<u8>, i: int, m: WindowMode, m2: WindowMode)
    requires
        has_at(s, i, mode_json(m)),
        has_at(s, i, mode_json(m2)),
    ensures
        m == m2,
{
    if m != m2 {
        lemma_has_at_index(s, i, mode_json(m), 1);
        lemma_has_at_index(s, i, mode_json(m2), 1);
        assert(mode_json(m)[1] == s[i + 1]);
        assert(mode_json(m2)[1] == s[i + 1]);
        assert(false);
    }
}

fn parse_mode(bytes: &[u8], i: usize) -> (r: Option<(WindowMode, usize)>)
    requires
        i <= bytes@.len(),
    ensures
        match r {
            Some(p) => {
                &&& has_at(bytes@, i as int, mode_json(p.0))
                &&& p.1 == i + mode_json(p.0).len()
                &&& p.1 <= bytes@.len()
                &&& forall|m2: WindowMode| has_at(bytes@, i as int, mode_json(m2)) ==> m2 == p.0
            },
            None => forall|m2: WindowMode| !has_at(bytes@, i as int, mode_json(m2)),
        },
{
    let tw = lit_tok_windowed_v();
    if let Some(j) = eat(bytes, i, &tw) {
        proof {
            assert forall|m2: WindowMode|
                has_at(bytes@, i as int, mode_json(m2)) implies m2 == WindowMode::Windowed by {
                lemma_mode_unique(bytes@, i as int, WindowMode::Windowed, m2);
            }
        }
        return Some((WindowMode::Windowed, j));
    }
    let tb = lit_tok_borderless_v();
    if let Some(j) = eat(bytes, i, &tb) {
        proof {
            assert forall|m2: WindowMode|
                has_at(bytes@, i as int, mode_json(m2)) implies m2
                == WindowMode::BorderlessFullscreen by {
                lemma_mode_unique(bytes@, i as int, WindowMode::BorderlessFullscreen, m2);
            }
        }
        return Some((WindowMode::BorderlessFullscreen, j));
    }
    let ts = lit_tok_sized_v();
    if let Some(j) = eat(bytes, i, &ts) {
        proof {
            assert forall|m2: WindowMode|
                has_at(bytes@, i as int, mode_json(m2)) implies m2
                == WindowMode::SizedFullscreen by {
                lemma_mode_unique(bytes@, i as int, WindowMode::SizedFullscreen, m2);
            }
        }
        return Some((WindowMode::SizedFullscreen, j));
    }
    let tf = lit_tok_fullscreen_v();
    if let Some(j) = eat(bytes, i, &tf) {
        proof {
            assert forall|m2: WindowMode|
                has_at(bytes@, i as int, mode_json(m2)) implies m2 == WindowMode::Fullscreen by {
                lemma_mode_unique(bytes@, i as int, WindowMode::Fullscreen, m2);
            }
        }
        return Some((WindowMode::Fullscreen, j));
    }
    proof {
        assert forall|m2: WindowMode| !has_at(bytes@, i as int, mode_json(m2)) by {
            if has_at(bytes@, i as int, mode_json(m2)) {
                match m2 {
                    WindowMode::Windowed => {
                        assert(mode_json(m2) == lit_tok_windowed());
                    },
                    WindowMode::BorderlessFullscreen => {
                        assert(mode_json(m2) == lit_tok_borderless());
                    },
                    WindowMode::SizedFullscreen => {
                        assert(mode_json(m2) == lit_tok_sized());
                    },
                    WindowMode::Fullscreen => {
                        assert(mode_json(m2) == lit_tok_fullscreen());
                    },
                }
            }
        }
    }
    None
}

/// What an occurrence of a monitor-index object forces: the opening bytes,
/// the canonical numeral closed off by `}`, and the closing brace.
proof fn lemma_index_decomp(s: Seq<u8>, i: int, n: u32)
    requires
        has_at(s, i, monitor_json(MonitorSelection::Index(n))),
    ensures
        has_at(s, i, lit_open_index()),
        nat_at(s, i + 9, n),
        has_at(s, i + 9 + digits(n as nat).len(), lit_close_brace()),
        monitor_json(MonitorSelection::Index(n)).len() == 10 + digits(n as nat).len(),
{
    let a = lit_open_index();
    let b = digits(n as nat);
    let c = lit_close_brace();
    assert(monitor_json(MonitorSelection::Index(n)) == a + b + c);
    lemma_has_at_split(s, i, a + b, c);
    lemma_has_at_split(s, i, a, b);
    lemma_has_at_index(s, i + 9 + b.len(), c, 0);
}

/// Two monitor selections encoded at one position are the same selection.
proof fn lemma_monitor_unique(s: Seq<u8>, i: int, m: MonitorSelection, m2: MonitorSelection)
    requires
        has_at(s, i, monitor_json(m)),
        has_at(s, i, monitor_json(m2)),
    ensures
        m == m2,
{
    match (m, m2) {
        (MonitorSelection::Index(n1), MonitorSelection::Index(n2)) => {
            lemma_index_decomp(s, i, n1);
            lemma_index_decomp(s, i, n2);
            lemma_nat_at_unique(s, i + 9, n1, n2);
        },
        _ => {
            if m != m2 {
                lemma_monitor_head(s, i, m);
                lemma_monitor_head(s, i, m2);
                assert(false);
            }
        },
    }
}

/// The first two bytes that each monitor encoding forces.
proof fn lemma_monitor_head(s: Seq<u8>, i: int, m: MonitorSelection)
    requires
        has_at(s, i, monitor_json(m)),
    ensures
        m is Current ==> s[i] == 34 && s[i + 1] == 99,
        m is Primary ==> s[i] == 34 && s[i + 1] == 112,
        m is Index ==> s[i] == 123,
{
    match m {
        MonitorSelection::Current => {
            lemma_has_at_index(s, i, monitor_json(m), 0);
            lemma_has_at_index(s, i, monitor_json(m), 1);
        },
        MonitorSelection::Primary => {
            lemma_has_at_index(s, i, monitor_json(m), 0);
            lemma_has_at_index(s, i, monitor_json(m), 1);
        },
        MonitorSelection::Index(n) => {
            lemma_index_decomp(s, i, n);
            lemma_has_at_index(s, i, lit_open_index(), 0);
        },
    }
}

fn parse_monitor(bytes: &[u8], i: usize) -> (r: Option<(MonitorSelection, usize)>)
    requires
        i <= bytes@.len(),
    ensures
        match r {
            Some(p) => {
                &&& has_at(bytes@, i as int, monitor_json(p.0))
                &&& p.1 == i + monitor_json(p.0).len()
                &&& p.1 <= bytes@.len()
                &&& forall|m2: MonitorSelection|
                    has_at(bytes@, i as int, monitor_json(m2)) ==> m2 == p.0
            },
            None => forall|m2: MonitorSelection| !has_at(bytes@, i as int, monitor_json(m2)),
        },
{
    let tc = lit_tok_current_v();
    if let Some(j) = eat(bytes, i, &tc) {
        proof {
            assert forall|m2: MonitorSelection|
                has_at(bytes@, i as int, monitor_json(m2)) implies m2
                == MonitorSelection::Current by {
                lemma_monitor_unique(bytes@, i as int, MonitorSelection::Current, m2);
            }
        }
        return Some((MonitorSelection::Current, j));
    }
    let tp = lit_tok_primary_v();
    if let Some(j) = eat(bytes, i, &tp) {
        proof {
            assert forall|m2: MonitorSelection|
                has_at(bytes@, i as int, monitor_json(m2)) implies m2
                == MonitorSelection::Primary by {
                lemma_monitor_unique(bytes@, i as int, MonitorSelection::Primary, m2);
            }
        }
        return Some((MonitorSelection::Primary, j));
    }
    let toi = lit_open_index_v();
    let j = match eat(bytes, i, &toi) {
        Some(j) => j,
        None => {
            proof {
                assert forall|m2: MonitorSelection| !has_at(
                    bytes@,
                    i as int,
                    monitor_json(m2),
                ) by {
                    if has_at(bytes@, i as int, monitor_json(m2)) {
                        match m2 {
                            MonitorSelection::Current => {},
                            MonitorSelection::Primary => {},
                            MonitorSelection::Index(n2) => {
                                lemma_index_decomp(bytes@, i as int, n2);
                            },
                        }
                    }
                }
            }
            return None;
        },
    };
    let (n, j2) = match scan_u32(bytes, j) {
        Some(p) => p,
        None => {
            proof {
                assert forall|m2: MonitorSelection| !has_at(
                    bytes@,
                    i as int,
                    monitor_json(m2),
                ) by {
                    if has_at(bytes@, i as int, monitor_json(m2)) {
                        match m2 {
                            MonitorSelection::Current => {},
                            MonitorSelection::Primary => {},
                            MonitorSelection::Index(n2) => {
                                lemma_index_decomp(bytes@, i as int, n2);
                            },
                        }
                    }
                }
            }
            return None;
        },
    };
    let cb = lit_close_brace_v();
    match eat(bytes, j2, &cb) {
        Some(j3) => {
            proof {
                let a = lit_open_index();
                let b = digits(n as nat);
                let c = lit_close_brace();
                lemma_has_at_join(bytes@, i as int, a, b);
                lemma_has_at_join(bytes@, i as int, a + b, c);
                assert(monitor_json(MonitorSelection::Index(n)) == a + b + c);
                assert forall|m2: MonitorSelection|
                    has_at(bytes@, i as int, monitor_json(m2)) implies m2
                    == MonitorSelection::Index(n) by {
                    lemma_monitor_unique(bytes@, i as int, MonitorSelection::Index(n), m2);
                }
            }
            Some((MonitorSelection::Index(n), j3))
        },
        None => {
            proof {
                assert forall|m2: MonitorSelection| !has_at(
                    bytes@,
                    i as int,
                    monitor_json(m2),
                ) by {
                    if has_at(bytes@, i as int, monitor_json(m2)) {
                        match m2 {
                            MonitorSelection::Current => {},
                            MonitorSelection::Primary => {},
                            MonitorSelection::Index(n2) => {
                                lemma_index_decomp(bytes@, i as int, n2);
                                assert(n2 == n);
                            },
                        }
                    }
                }
            }
            None
        },
    }
}

/// What an occurrence of a centered-position object forces.
proof fn lemma_centered_decomp(s: Seq<u8>, i: int, m: MonitorSelection)
    requires
        has_at(s, i, pos_json(WindowPosition::Centered(m))),
    ensures
        has_at(s, i, lit_open_centered()),
        has_at(s, i + 12, monitor_json(m)),
        has_at(s, i + 12 + monitor_json(m).len(), lit_close_brace()),
        pos_json(WindowPosition::Centered(m)).len() == 13 + monitor_json(m).len(),
{
    let a = lit_open_centered();
    let b = monitor_json(m);
    let c = lit_close_brace();
    assert(pos_json(WindowPosition::Centered(m)) == a + b + c);
    lemma_has_at_split(s, i, a + b, c);
    lemma_has_at_split(s, i, a, b);
}

/// What an occurrence of a fixed-coordinates object forces: both canonical
/// signed numerals, each closed off by a non-digit.
proof fn lemma_at_decomp(s: Seq<u8>, i: int, x: i32, y: i32)
    requires
        has_at(s, i, pos_json(WindowPosition::At(x, y))),
    ensures
        has_at(s, i, lit_open_at()),
        int_at(s, i + 7, x),
        has_at(s, i + 7 + digits_i(x as int).len(), lit_comma()),
        int_at(s, i + 8 + digits_i(x as int).len(), y),
        has_at(
            s,
            i + 8 + digits_i(x as int).len() + digits_i(y as int).len(),
            lit_close_arr(),
        ),
        pos_json(WindowPosition::At(x, y)).len() == 10 + digits_i(x as int).len() + digits_i(
            y as int,
        ).len(),
{
    let a = lit_open_at();
    let b = digits_i(x as int);
    let c = lit_comma();
    let d = digits_i(y as int);
    let e = lit_close_arr();
    assert(pos_json(WindowPosition::At(x, y)) == a + b + c + d + e);
    lemma_has_at_split(s, i, a + b + c + d, e);
    lemma_has_at_split(s, i, a + b + c, d);
    lemma_has_at_split(s, i, a + b, c);
    lemma_has_at_split(s, i, a, b);
    lemma_has_at_index(s, i + 7 + b.len(), c, 0);
    lemma_has_at_index(s, i + 8 + b.len() + d.len(), e, 0);
}

/// The first bytes that each position encoding forces.
proof fn lemma_pos_head(s: Seq<u8>, i: int, p: WindowPosition)
    requires
        has_at(s, i, pos_json(p)),
    ensures
        p is Automatic ==> s[i] == 34,
        p is Centered ==> s[i] == 123 && s[i + 2] == 99,
        p is At ==> s[i] == 123 && s[i + 2] == 97,
{
    match p {
        WindowPosition::Automatic => {
            lemma_has_at_index(s, i, pos_json(p), 0);
        },
        WindowPosition::Centered(m) => {
            lemma_centered_decomp(s, i, m);
            lemma_has_at_index(s, i, lit_open_centered(), 0);
            lemma_has_at_index(s, i, lit_open_centered(), 2);
        },
        WindowPosition::At(x, y) => {
            lemma_at_decomp(s, i, x, y);
            lemma_has_at_index(s, i, lit_open_at(), 0);
            lemma_has_at_index(s, i, lit_open_at(), 2);
        },
    }
}

/// Two window positions encoded at one position are the same position.
proof fn lemma_pos_unique(s: Seq<u8>, i: int, p: WindowPosition, p2: WindowPosition)
    requires
        has_at(s, i, pos_json(p)),
        has_at(s, i, pos_json(p2)),
    ensures
        p == p2,
{
    match (p, p2) {
        (WindowPosition::Centered(m1), WindowPosition::Centered(m2)) => {
            lemma_centered_decomp(s, i, m1);
            lemma_centered_decomp(s, i, m2);
            lemma_monitor_unique(s, i + 12, m1, m2);
        },
        (WindowPosition::At(x1, y1), WindowPosition::At(x2, y2)) => {
            lemma_at_decomp(s, i, x1, y1);
            lemma_at_decomp(s, i, x2, y2);
            lemma_int_at_unique(s, i + 7, x1, x2);
            lemma_int_at_unique(s, i + 8 + digits_i(x1 as int).len(), y1, y2);
        },
        _ => {
            if p != p2 {
                lemma_pos_head(s, i, p);
                lemma_pos_head(s, i, p2);
                assert(false);
            }
        },
    }
}

fn parse_position(bytes: &[u8], i: usize) -> (r: Option<(WindowPosition, usize)>)
    requires
        i <= bytes@.len(),
    ensures
        match r {
            Some(p) => {
                &&& has_at(bytes@, i as int, pos_json(p.0))
                &&& p.1 == i + pos_json(p.0).len()
                &&& p.1 <= bytes@.len()
                &&& forall|p2: WindowPosition| has_at(bytes@, i as int, pos_json(p2)) ==> p2 == p.0
            },
            None => forall|p2: WindowPosition| !has_at(bytes@, i as int, pos_json(p2)),
        },
{
    let ta = lit_tok_automatic_v();
    if let Some(j) = eat(bytes, i, &ta) {
        proof {
            assert forall|p2: WindowPosition|
                has_at(bytes@, i as int, pos_json(p2)) implies p2
                == WindowPosition::Automatic by {
                lemma_pos_unique(bytes@, i as int, WindowPosition::Automatic, p2);
            }
        }
        return Some((WindowPosition::Automatic, j));
    }
    let tcen = lit_open_centered_v();
    if let Some(j) = eat(bytes, i, &tcen) {
        let (ms, j2) = match parse_monitor(bytes, j) {
            Some(p) => p,
            None => {
                proof {
                    assert forall|p2: WindowPosition| !has_at(
                        bytes@,
                        i as int,
                        pos_json(p2),
                    ) by {
                        if has_at(bytes@, i as int, pos_json(p2)) {
                            match p2 {
                                WindowPosition::Automatic => {},
                                WindowPosition::Centered(m2) => {
                                    lemma_centered_decomp(bytes@, i as int, m2);
                                },
                                WindowPosition::At(x2, y2) => {
                                    lemma_pos_head(bytes@, i as int, p2);
                                    lemma_has_at_index(bytes@, i as int, lit_open_centered(), 2);
                                },
                            }
                        }
                    }
                }
                return None;
            },
        };
        let cb = lit_close_brace_v();
        match eat(bytes, j2, &cb) {
            Some(j3) => {
                proof {
                    let a = lit_open_centered();
                    let b = monitor_json(ms);
                    let c = lit_close_brace();
                    lemma_has_at_join(bytes@, i as int, a, b);
                    lemma_has_at_join(bytes@, i as int, a + b, c);
                    assert(pos_json(WindowPosition::Centered(ms)) == a + b + c);
                    assert forall|p2: WindowPosition|
                        has_at(bytes@, i as int, pos_json(p2)) implies p2
                        == WindowPosition::Centered(ms) by {
                        lemma_pos_unique(bytes@, i as int, WindowPosition::Centered(ms), p2);
                    }
                }
                return Some((WindowPosition::Centered(ms), j3));
            },
            None => {
                proof {
                    assert forall|p2: WindowPosition| !has_at(
                        bytes@,
                        i as int,
                        pos_json(p2),
                    ) by {
                        if has_at(bytes@, i as int, pos_json(p2)) {
                            match p2 {
                                WindowPosition::Automatic => {},
                                WindowPosition::Centered(m2) => {
                                    lemma_centered_decomp(bytes@, i as int, m2);
                                    assert(m2 == ms);
                                },
                                WindowPosition::At(x2, y2) => {
                                    lemma_pos_head(bytes@, i as int, p2);
                                    lemma_has_at_index(bytes@, i as int, lit_open_centered(), 2);
                                },
                            }
                        }
                    }
                }
                return None;
            },
        }
    }
    let toa = lit_open_at_v();
    let j = match eat(bytes, i, &toa) {
        Some(j) => j,
        None => {
            proof {
                assert forall|p2: WindowPosition| !has_at(bytes@, i as int, pos_json(p2)) by {
                    if has_at(bytes@, i as int, pos_json(p2)) {
                        match p2 {
                            WindowPosition::Automatic => {},
                            WindowPosition::Centered(m2) => {
                                lemma_centered_decomp(bytes@, i as int, m2);
                            },
                            WindowPosition::At(x2, y2) => {
                                lemma_at_decomp(bytes@, i as int, x2, y2);
                            },
                        }
                    }
                }
            }
            return None;
        },
    };
    let (x, j2) = match parse_i32(bytes, j) {
        Some(p) => p,
        None => {
            proof {
                assert forall|p2: WindowPosition| !has_at(bytes@, i as int, pos_json(p2)) by {
                    if has_at(bytes@, i as int, pos_json(p2)) {
                        match p2 {
                            WindowPosition::Automatic => {},
                            WindowPosition::Centered(m2) => {
                                lemma_centered_decomp(bytes@, i as int, m2);
                            },
                            WindowPosition::At(x2, y2) => {
                                lemma_at_decomp(bytes@, i as int, x2, y2);
                            },
                        }
                    }
                }
            }
            return None;
        },
    };
    let cm = lit_comma_v();
    let j3 = match eat(bytes, j2, &cm) {
        Some(j3) => j3,
        None => {
            proof {
                assert forall|p2: WindowPosition| !has_at(bytes@, i as int, pos_json(p2)) by {
                    if has_at(bytes@, i as int, pos_json(p2)) {
                        match p2 {
                            WindowPosition::Automatic => {},
                            WindowPosition::Centered(m2) => {
                                lemma_centered_decomp(bytes@, i as int, m2);
                            },
                            WindowPosition::At(x2, y2) => {
                                lemma_at_decomp(bytes@, i as int, x2, y2);
                                assert(x2 == x);
                            },
                        }
                    }
                }
            }
            return None;
        },
    };
    let (y, j4) = match parse_i32(bytes, j3) {
        Some(p) => p,
        None => {
            proof {
                assert forall|p2: WindowPosition| !has_at(bytes@, i as int, pos_json(p2)) by {
                    if has_at(bytes@, i as int, pos_json(p2)) {
                        match p2 {
                            WindowPosition::Automatic => {},
                            WindowPosition::Centered(m2) => {
                                lemma_centered_decomp(bytes@, i as int, m2);
                            },
                            WindowPosition::At(x2, y2) => {
                                lemma_at_decomp(bytes@, i as int, x2, y2);
                                assert(x2 == x);
                            },
                        }
                    }
                }
            }
            return None;
        },
    };
    let ca = lit_close_arr_v();
    match eat(bytes, j4, &ca) {
        Some(j5) => {
            proof {
                let a = lit_open_at();
                let b = digits_i(x as int);
                let c = lit_comma();
                let d = digits_i(y as int);
                let e = lit_close_arr();
                lemma_has_at_join(bytes@, i as int, a, b);
                lemma_has_at_join(bytes@, i as int, a + b, c);
                lemma_has_at_join(bytes@, i as int, a + b + c, d);
                lemma_has_at_join(bytes@, i as int, a + b + c + d, e);
                assert(pos_json(WindowPosition::At(x, y)) == a + b + c + d + e);
                assert forall|p2: WindowPosition|
                    has_at(bytes@, i as int, pos_json(p2)) implies p2 == WindowPosition::At(
                    x,
                    y,
                ) by {
                    lemma_pos_unique(bytes@, i as int, WindowPosition::At(x, y), p2);
                }
            }
            Some((WindowPosition::At(x, y), j5))
        },
        None => {
            proof {
                assert forall|p2: WindowPosition| !has_at(bytes@, i as int, pos_json(p2)) by {
                    if has_at(bytes@, i as int, pos_json(p2)) {
                        match p2 {
                            WindowPosition::Automatic => {},
                            WindowPosition::Centered(m2) => {
                                lemma_centered_decomp(bytes@, i as int, m2);
                            },
                            WindowPosition::At(x2, y2) => {
                                lemma_at_decomp(bytes@, i as int, x2, y2);
                                assert(x2 == x);
                                assert(y2 == y);
                            },
                        }
                    }
                }
            }
            None
        },
    }
}

/// What the one encoding of `v` forces at every offset: each fixed literal,
/// the mode token, the position object, and both canonical numerals, each
/// numeral closed off by a non-digit.
proof fn lemma_settings_decomp(s: Seq<u8>, v: WindowSettings)
    requires
        s == settings_json(v),
    ensures
        has_at(s, 0, lit_open_obj()),
        has_at(s, 8, mode_json(v.mode)),
        has_at(s, 8 + mode_json(v.mode).len() as int, lit_key_position()),
        has_at(s, 20 + mode_json(v.mode).len() as int, pos_json(v.position)),
        has_at(
            s,
            20 + mode_json(v.mode).len() as int + pos_json(v.position).len() as int,
            lit_key_resolution(),
        ),
        nat_at(
            s,
            35 + mode_json(v.mode).len() as int + pos_json(v.position).len() as int,
            v.resolution.width,
        ),
        has_at(
            s,
            35 + mode_json(v.mode).len() as int + pos_json(v.position).len() as int + digits(
                v.resolution.width as nat,
            ).len() as int,
            lit_comma(),
        ),
        nat_at(
            s,
            36 + mode_json(v.mode).len() as int + pos_json(v.position).len() as int + digits(
                v.resolution.width as nat,
            ).len() as int,
            v.resolution.height,
        ),
        has_at(
            s,
            36 + mode_json(v.mode).len() as int + pos_json(v.position).len() as int + digits(
                v.resolution.width as nat,
            ).len() as int + digits(v.resolution.height as nat).len() as int,
            lit_close_arr(),
        ),
        s.len() as int == 38 + mode_json(v.mode).len() as int + pos_json(v.position).len() as int + digits(
            v.resolution.width as nat,
        ).len() as int + digits(v.resolution.height as nat).len() as int,
{
    let a = lit_open_obj();
    let b = mode_json(v.mode);
    let c = lit_key_position();
    let d = pos_json(v.position);
    let e = lit_key_resolution();
    let f = digits(v.resolution.width as nat);
    let g = lit_comma();
    let h = digits(v.resolution.height as nat);
    let z = lit_close_arr();
    assert(s == a + b + c + d + e + f + g + h + z);
    assert(has_at(s, 0, a + b + c + d + e + f + g + h + z)) by {
        assert(s.subrange(0, s.len() as int) =~= s);
    }
    lemma_has_at_split(s, 0, a + b + c + d + e + f + g + h, z);
    lemma_has_at_split(s, 0, a + b + c + d + e + f + g, h);
    lemma_has_at_split(s, 0, a + b + c + d + e + f, g);
    lemma_has_at_split(s, 0, a + b + c + d + e, f);
    lemma_has_at_split(s, 0, a + b + c + d, e);
    lemma_has_at_split(s, 0, a + b + c, d);
    lemma_has_at_split(s, 0, a + b, c);
    lemma_has_at_split(s, 0, a, b);
    lemma_has_at_index(s, 35 + b.len() as int + d.len() as int + f.len() as int, g, 0);
    lemma_has_at_index(s, 36 + b.len() as int + d.len() as int + f.len() as int + h.len() as int, z, 0);
}

/// No settings value is encoded in `s` when the opening literal is missing.
proof fn lemma_refute_open(s: Seq<u8>)
    requires
        !has_at(s, 0, lit_open_obj()),
    ensures
        forall|v: WindowSettings| s != settings_json(v),
{
    assert forall|v: WindowSettings| s != settings_json(v) by {
        if s == settings_json(v) {
            lemma_settings_decomp(s, v);
        }
    }
}

/// No settings value is encoded in `s` when no mode token follows the
/// opening literal.
proof fn lemma_refute_mode(s: Seq<u8>)
    requires
        forall|m2: WindowMode| !has_at(s, 8, mode_json(m2)),
    ensures
        forall|v: WindowSettings| s != settings_json(v),
{
    assert forall|v: WindowSettings| s != settings_json(v) by {
        if s == settings_json(v) {
            lemma_settings_decomp(s, v);
        }
    }
}

/// No settings value is encoded in `s` when the position key is missing
/// after the one mode token that stands at offset 8.
proof fn lemma_refute_key_pos(s: Seq<u8>, mode: WindowMode)
    requires
        forall|m2: WindowMode| has_at(s, 8, mode_json(m2)) ==> m2 == mode,
        !has_at(s, 8 + mode_json(mode).len() as int, lit_key_position()),
    ensures
        forall|v: WindowSettings| s != settings_json(v),
{
    assert forall|v: WindowSettings| s != settings_json(v) by {
        if s == settings_json(v) {
            lemma_settings_decomp(s, v);
            assert(v.mode == mode);
        }
    }
}

/// No settings value is encoded in `s` when no position object stands at
/// `op`, the offset right after the position key.
proof fn lemma_refute_pos(s: Seq<u8>, mode: WindowMode, op: int)
    requires
        forall|m2: WindowMode| has_at(s, 8, mode_json(m2)) ==> m2 == mode,
        op == 20 + mode_json(mode).len() as int,
        forall|p2: WindowPosition| !has_at(s, op, pos_json(p2)),
    ensures
        forall|v: WindowSettings| s != settings_json(v),
{
    assert forall|v: WindowSettings| s != settings_json(v) by {
        if s == settings_json(v) {
            lemma_settings_decomp(s, v);
            assert(v.mode == mode);
            assert(has_at(s, op, pos_json(v.position)));
        }
    }
}

/// No settings value is encoded in `s` when the resolution key is missing
/// after the mode and the one position object at `op`.
proof fn lemma_refute_key_res(s: Seq<u8>, mode: WindowMode, pos: WindowPosition, op: int)
    requires
        forall|m2: WindowMode| has_at(s, 8, mode_json(m2)) ==> m2 == mode,
        op == 20 + mode_json(mode).len() as int,
        forall|p2: WindowPosition| has_at(s, op, pos_json(p2)) ==> p2 == pos,
        !has_at(s, op + pos_json(pos).len() as int, lit_key_resolution()),
    ensures
        forall|v: WindowSettings| s != settings_json(v),
{
    assert forall|v: WindowSettings| s != settings_json(v) by {
        if s == settings_json(v) {
            lemma_settings_decomp(s, v);
            assert(v.mode == mode);
            assert(has_at(s, op, pos_json(v.position)));
            assert(v.position == pos);
        }
    }
}

/// No settings value is encoded in `s` when no canonical width numeral
/// stands at `ow`, the offset right after the resolution key.
proof fn lemma_refute_width(s: Seq<u8>, mode: WindowMode, pos: WindowPosition, op: int, ow: int)
    requires
        forall|m2: WindowMode| has_at(s, 8, mode_json(m2)) ==> m2 == mode,
        op == 20 + mode_json(mode).len() as int,
        forall|p2: WindowPosition| has_at(s, op, pos_json(p2)) ==> p2 == pos,
        ow == op + 15 + pos_json(pos).len() as int,
        forall|n2: u32| !nat_at(s, ow, n2),
    ensures
        forall|v: WindowSettings| s != settings_json(v),
{
    assert forall|v: WindowSettings| s != settings_json(v) by {
        if s == settings_json(v) {
            lemma_settings_decomp(s, v);
            assert(v.mode == mode);
            assert(has_at(s, op, pos_json(v.position)));
            assert(v.position == pos);
            assert(nat_at(s, ow, v.resolution.width));
        }
    }
}

/// No settings value is encoded in `s` when the separator is missing after
/// the one width numeral at `ow`.
proof fn lemma_refute_comma(
    s: Seq<u8>,
    mode: WindowMode,
    pos: WindowPosition,
    w: u32,
    op: int,
    ow: int,
)
    requires
        forall|m2: WindowMode| has_at(s, 8, mode_json(m2)) ==> m2 == mode,
        op == 20 + mode_json(mode).len() as int,
        forall|p2: WindowPosition| has_at(s, op, pos_json(p2)) ==> p2 == pos,
        ow == op + 15 + pos_json(pos).len() as int,
        forall|n2: u32| nat_at(s, ow, n2) ==> n2 == w,
        !has_at(s, ow + digits(w as nat).len() as int, lit_comma()),
    ensures
        forall|v: WindowSettings| s != settings_json(v),
{
    assert forall|v: WindowSettings| s != settings_json(v) by {
        if s == settings_json(v) {
            lemma_settings_decomp(s, v);
            assert(v.mode == mode);
            assert(has_at(s, op, pos_json(v.position)));
            assert(v.position == pos);
            assert(nat_at(s, ow, v.resolution.width));
            assert(v.resolution.width == w);
        }
    }
}

/// No settings value is encoded in `s` when no canonical height numeral
/// stands at `oh`, the offset right after the separator.
proof fn lemma_refute_height(
    s: Seq<u8>,
    mode: WindowMode,
    pos: WindowPosition,
    w: u32,
    op: int,
    ow: int,
    oh: int,
)
    requires
        forall|m2: WindowMode| has_at(s, 8, mode_json(m2)) ==> m2 == mode,
        op == 20 + mode_json(mode).len() as int,
        forall|p2: WindowPosition| has_at(s, op, pos_json(p2)) ==> p2 == pos,
        ow == op + 15 + pos_json(pos).len() as int,
        forall|n2: u32| nat_at(s, ow, n2) ==> n2 == w,
        oh == ow + 1 + digits(w as nat).len() as int,
        forall|n2: u32| !nat_at(s, oh, n2),
    ensures
        forall|v: WindowSettings| s != settings_json(v),
{
    assert forall|v: WindowSettings| s != settings_json(v) by {
        if s == settings_json(v) {
            lemma_settings_decomp(s, v);
            assert(v.mode == mode);
            assert(has_at(s, op, pos_json(v.position)));
            assert(v.position == pos);
            assert(nat_at(s, ow, v.resolution.width));
            assert(v.resolution.width == w);
            assert(nat_at(s, oh, v.resolution.height));
        }
    }
}

/// Every component that the parsers fixed is the component of any value
/// encoded in `s`, and the document ends right after the closing literal.
proof fn lemma_decode_unique(
    s: Seq<u8>,
    mode: WindowMode,
    pos: WindowPosition,
    w: u32,
    h: u32,
    op: int,
    ow: int,
    oh: int,
    v: WindowSettings,
)
    requires
        s == settings_json(v),
        forall|m2: WindowMode| has_at(s, 8, mode_json(m2)) ==> m2 == mode,
        op == 20 + mode_json(mode).len() as int,
        forall|p2: WindowPosition| has_at(s, op, pos_json(p2)) ==> p2 == pos,
        ow == op + 15 + pos_json(pos).len() as int,
        forall|n2: u32| nat_at(s, ow, n2) ==> n2 == w,
        oh == ow + 1 + digits(w as nat).len() as int,
        forall|n2: u32| nat_at(s, oh, n2) ==> n2 == h,
    ensures
        v.mode == mode,
        v.position == pos,
        v.resolution.width == w,
        v.resolution.height == h,
        s.len() == oh + 2 + digits(h as nat).len(),
        has_at(s, oh + digits(h as nat).len() as int, lit_close_arr()),
{
    lemma_settings_decomp(s, v);
    assert(v.mode == mode);
    assert(has_at(s, op, pos_json(v.position)));
    assert(v.position == pos);
    assert(nat_at(s, ow, v.resolution.width));
    assert(v.resolution.width == w);
    assert(nat_at(s, oh, v.resolution.height));
    assert(v.resolution.height == h);
}

/// Law: encoding is injective. Two settings values with the same canonical
/// document are the same value, so a stored document never restores to the
/// wrong configuration.
pub proof fn lemma_encoding_injective(a: WindowSettings, b: WindowSettings)
    requires
        settings_json(a) == settings_json(b),
    ensures
        a == b,
{
    let s = settings_json(a);
    lemma_settings_decomp(s, a);
    lemma_settings_decomp(s, b);
    lemma_mode_unique(s, 8, a.mode, b.mode);
    lemma_pos_unique(s, 20 + mode_json(a.mode).len() as int, a.position, b.position);
    lemma_nat_at_unique(
        s,
        35 + mode_json(a.mode).len() as int + pos_json(a.position).len() as int,
        a.resolution.width,
        b.resolution.width,
    );
    lemma_nat_at_unique(
        s,
        36 + mode_json(a.mode).len() as int + pos_json(a.position).len() as int + digits(
            a.resolution.width as nat,
        ).len() as int,
        a.resolution.height,
        b.resolution.height,
    );
    assert(a.resolution == b.resolution);
}

/// The nine adjacent parts read back by the decoder make up the whole
/// document exactly when the document is the encoding of their settings.
proof fn lemma_assemble(s: Seq<u8>, v: WindowSettings)
    requires
        has_at(s, 0, lit_open_obj()),
        has_at(s, 8, mode_json(v.mode)),
        has_at(s, 8 + mode_json(v.mode).len() as int, lit_key_position()),
        has_at(s, 20 + mode_json(v.mode).len() as int, pos_json(v.position)),
        has_at(
            s,
            20 + mode_json(v.mode).len() as int + pos_json(v.position).len() as int,
            lit_key_resolution(),
        ),
        has_at(
            s,
            35 + mode_json(v.mode).len() as int + pos_json(v.position).len() as int,
            digits(v.resolution.width as nat),
        ),
        has_at(
            s,
            35 + mode_json(v.mode).len() as int + pos_json(v.position).len() as int + digits(
                v.resolution.width as nat,
            ).len() as int,
            lit_comma(),
        ),
        has_at(
            s,
            36 + mode_json(v.mode).len() as int + pos_json(v.position).len() as int + digits(
                v.resolution.width as nat,
            ).len() as int,
            digits(v.resolution.height as nat),
        ),
        has_at(
            s,
            36 + mode_json(v.mode).len() as int + pos_json(v.position).len() as int + digits(
                v.resolution.width as nat,
            ).len() as int + digits(v.resolution.height as nat).len() as int,
            lit_close_arr(),
        ),
        s.len() == 38 + mode_json(v.mode).len() + pos_json(v.position).len() + digits(
            v.resolution.width as nat,
        ).len() + digits(v.resolution.height as nat).len(),
    ensures
        s == settings_json(v),
{
    let a = lit_open_obj();
    let b = mode_json(v.mode);
    let c = lit_key_position();
    let d = pos_json(v.position);
    let e = lit_key_resolution();
    let f = digits(v.resolution.width as nat);
    let g = lit_comma();
    let h = digits(v.resolution.height as nat);
    let z = lit_close_arr();
    lemma_has_at_join(s, 0, a, b);
    lemma_has_at_join(s, 0, a + b, c);
    lemma_has_at_join(s, 0, a + b + c, d);
    lemma_has_at_join(s, 0, a + b + c + d, e);
    lemma_has_at_join(s, 0, a + b + c + d + e, f);
    lemma_has_at_join(s, 0, a + b + c + d + e + f, g);
    lemma_has_at_join(s, 0, a + b + c + d + e + f + g, h);
    lemma_has_at_join(s, 0, a + b + c + d + e + f + g + h, z);
    assert(settings_json(v) == a + b + c + d + e + f + g + h + z);
    assert(s.subrange(0, s.len() as int) =~= s);
}

/// Reads back a settings value from its canonical JSON document.
///
/// The result is `Some(s)` exactly when the whole input is the one encoding
/// of `s`; any other input — other key order, whitespace, a non-canonical
/// numeral, trailing bytes — is rejected.
pub fn decode_settings(bytes: &[u8]) -> (r: Option<WindowSettings>)
    ensures
        match r {
            Some(s) => bytes@ == settings_json(s) && (forall|v: WindowSettings|
                bytes@ == settings_json(v) ==> v == s),
            None => forall|v: WindowSettings| bytes@ != settings_json(v),
        },
{
    let lo = lit_open_obj_v();
    let i1 = match eat(bytes, 0, &lo) {
        Some(j) => j,
        None => {
            proof {
                lemma_refute_open(bytes@);
            }
            return None;
        },
    };
    let (mode, i2) = match parse_mode(bytes, i1) {
        Some(p) => p,
        None => {
            proof {
                lemma_refute_mode(bytes@);
            }
            return None;
        },
    };
    let kp = lit_key_position_v();
    let i3 = match eat(bytes, i2, &kp) {
        Some(j) => j,
        None => {
            proof {
                lemma_refute_key_pos(bytes@, mode);
            }
            return None;
        },
    };
    let (pos, i4) = match parse_position(bytes, i3) {
        Some(p) => p,
        None => {
            proof {
                lemma_refute_pos(bytes@, mode, i3 as int);
            }
            return None;
        },
    };
    let kr = lit_key_resolution_v();
    let i5 = match eat(bytes, i4, &kr) {
        Some(j) => j,
        None => {
            proof {
                lemma_refute_key_res(bytes@, mode, pos, i3 as int);
            }
            return None;
        },
    };
    let (w, i6) = match scan_u32(bytes, i5) {
        Some(p) => p,
        None => {
            proof {
                lemma_refute_width(bytes@, mode, pos, i3 as int, i5 as int);
            }
            return None;
        },
    };
    let cm = lit_comma_v();
    let i7 = match eat(bytes, i6, &cm) {
        Some(j) => j,
        None => {
            proof {
                lemma_refute_comma(bytes@, mode, pos, w, i3 as int, i5 as int);
            }
            return None;
        },
    };
    let (h, i8) = match scan_u32(bytes, i7) {
        Some(p) => p,
        None => {
            proof {
                lemma_refute_height(bytes@, mode, pos, w, i3 as int, i5 as int, i7 as int);
            }
            return None;
        },
    };
    let ca = lit_close_arr_v();
    let i9 = match eat(bytes, i8, &ca) {
        Some(j) => j,
        None => {
            proof {
                assert forall|v: WindowSettings| bytes@ != settings_json(v) by {
                    if bytes@ == settings_json(v) {
                        lemma_decode_unique(bytes@, mode, pos, w, h, i3 as int, i5 as int, i7 as int, v);
                    }
                }
            }
            return None;
        },
    };
    if i9 != bytes.len() {
        proof {
            assert forall|v: WindowSettings| bytes@ != settings_json(v) by {
                if bytes@ == settings_json(v) {
                    lemma_decode_unique(bytes@, mode, pos, w, h, i3 as int, i5 as int, i7 as int, v);
                }
            }
        }
        return None;
    }
    let s = WindowSettings {
        mode,
        position: pos,
        resolution: crate::settings::WindowResolution { width: w, height: h },
    };
    proof {
        lemma_assemble(bytes@, s);
        assert forall|v: WindowSettings| bytes@ == settings_json(v) implies v == s by {
            lemma_decode_unique(bytes@, mode, pos, w, h, i3 as int, i5 as int, i7 as int, v);
            assert(v.resolution == s.resolution);
        }
    }
    Some(s)
}

fn push_mode(m: WindowMode, out: &mut Vec<u8>)
    ensures
        final(out)@ == old(out)@ + mode_json(m),
{
    match m {
        WindowMode::Windowed => {
            let mut l = lit_tok_windowed_v();
            out.append(&mut l);
        },
        WindowMode::BorderlessFullscreen => {
            let mut l = lit_tok_borderless_v();
            out.append(&mut l);
        },
        WindowMode::SizedFullscreen => {
            let mut l = lit_tok_sized_v();
            out.append(&mut l);
        },
        WindowMode::Fullscreen => {
            let mut l = lit_tok_fullscreen_v();
            out.append(&mut l);
        },
    }
}

fn push_monitor(m: MonitorSelection, out: &mut Vec<u8>)
    ensures
        final(out)@ == old(out)@ + monitor_json(m),
{
    match m {
        MonitorSelection::Current => {
            let mut l = lit_tok_current_v();
            out.append(&mut l);
        },
        MonitorSelection::Primary => {
            let mut l = lit_tok_primary_v();
            out.append(&mut l);
        },
        MonitorSelection::Index(n) => {
            let mut l = lit_open_index_v();
            out.append(&mut l);
            push_u32(n, out);
            let mut r = lit_close_brace_v();
            out.append(&mut r);
            assert(out@ =~= old(out)@ + monitor_json(m));
        },
    }
}

fn push_position(p: WindowPosition, out: &mut Vec<u8>)
    ensures
        final(out)@ == old(out)@ + pos_json(p),
{
    match p {
        WindowPosition::Automatic => {
            let mut l = lit_tok_automatic_v();
            out.append(&mut l);
        },
        WindowPosition::Centered(m) => {
            let mut l = lit_open_centered_v();
            out.append(&mut l);
            push_monitor(m, out);
            let mut r = lit_close_brace_v();
            out.append(&mut r);
            assert(out@ =~= old(out)@ + pos_json(p));
        },
        WindowPosition::At(x, y) => {
            let mut l = lit_open_at_v();
            out.append(&mut l);
            push_i32(x, out);
            let mut c = lit_comma_v();
            out.append(&mut c);
            push_i32(y, out);
            let mut r = lit_close_arr_v();
            out.append(&mut r);
            assert(out@ =~= old(out)@ + pos_json(p));
        },
    }
}

/// Writes the one canonical JSON document that encodes `s`.
pub fn encode_settings(s: &WindowSettings) -> (out: Vec<u8>)
    ensures
        out@ == settings_json(*s),
{
    let mut out: Vec<u8> = Vec::new();
    let mut lo = lit_open_obj_v();
    out.append(&mut lo);
    push_mode(s.mode, &mut out);
    let mut kp = lit_key_position_v();
    out.append(&mut kp);
    push_position(s.position, &mut out);
    let mut kr = lit_key_resolution_v();
    out.append(&mut kr);
    push_u32(s.resolution.width, &mut out);
    let mut cm = lit_comma_v();
    out.append(&mut cm);
    push_u32(s.resolution.height, &mut out);
    let mut ca = lit_close_arr_v();
    out.append(&mut ca);
    assert(out@ =~= settings_json(*s));
    out
}

} // verus!
