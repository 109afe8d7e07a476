use vstd::prelude::*;

use crate::bridge::{DecodeError, DecodeErrorKind};
use crate::curly::{plain_real_text, write_plain_real};
use crate::enums::NodeType;
use crate::loose_real::{loose_real, loose_real_of};
use crate::text::{chars_of, is_unicode_ws, is_whitespace, push_char, string_of, text_is};
use crate::value::{plist_view, Plist, PlistModel, Real};

verus! {

/// Splitting `t` at Unicode whitespace: the finished words, and the word still open.
pub open spec fn word_scan(t: Seq<char>) -> (Seq<Seq<char>>, Seq<char>)
    decreases t.len(),
{
    if t.len() == 0 {
        (Seq::empty(), Seq::empty())
    } else {
        let (done, cur) = word_scan(t.drop_last());
        let c = t.last();
        if is_unicode_ws(c) {
            if cur.len() > 0 {
                (done.push(cur), Seq::empty())
            } else {
                (done, Seq::empty())
            }
        } else {
            (done, cur.push(c))
        }
    }
}

/// The words of `t`: its maximal runs without whitespace.
pub open spec fn words(t: Seq<char>) -> Seq<Seq<char>> {
    let (done, cur) = word_scan(t);
    if cur.len() > 0 {
        done.push(cur)
    } else {
        done
    }
}

/// The word for a node type, with `SMOOTH` after it for the smooth kinds.
pub open spec fn type_text(t: NodeType) -> Seq<char> {
    match t {
        NodeType::Line => "LINE"@,
        NodeType::Curve => "CURVE"@,
        NodeType::QCurve => "QCURVE"@,
        NodeType::OffCurve => "OFFCURVE"@,
        NodeType::LineSmooth => "LINE SMOOTH"@,
        NodeType::CurveSmooth => "CURVE SMOOTH"@,
        NodeType::QCurveSmooth => "QCURVE SMOOTH"@,
    }
}

/// The node type that a word names, smooth or not.
pub open spec fn type_of_word(w: Seq<char>, smooth: bool) -> Option<NodeType> {
    if w == "LINE"@ {
        Some(if smooth { NodeType::LineSmooth } else { NodeType::Line })
    } else if w == "CURVE"@ {
        Some(if smooth { NodeType::CurveSmooth } else { NodeType::Curve })
    } else if w == "QCURVE"@ {
        Some(if smooth { NodeType::QCurveSmooth } else { NodeType::QCurve })
    } else if w == "OFFCURVE"@ && !smooth {
        Some(NodeType::OffCurve)
    } else {
        None
    }
}

/// A node written as text: `x y TYPE`, and `SMOOTH` as a fourth word for a
/// smooth node.
#[derive(Debug, Clone, Copy, PartialEq, Eq, Structural)]
pub struct Node {
    pub x: Real,
    pub y: Real,
    pub node_type: NodeType,
}

pub open spec fn node_text(n: Node) -> Seq<char> {
    plain_real_text(n.x.units as int) + seq![' '] + plain_real_text(n.y.units as int) + seq![' ']
        + type_text(n.node_type)
}

/// What decoding the text `t` gives: the position from the first two words
/// (read as [`loose_real`]), the type from the third and, when there is one,
/// the fourth.
pub open spec fn node_of(t: Seq<char>) -> Option<Node> {
    let w = words(t);
    if w.len() < 3 || loose_real(w[0]) is None || loose_real(w[1]) is None {
        None
    } else {
        match type_of_word(w[2], w.len() > 3 && w[3] == "SMOOTH"@) {
            Some(k) => Some(
                Node {
                    x: Real { units: loose_real(w[0])->Some_0 as i64 },
                    y: Real { units: loose_real(w[1])->Some_0 as i64 },
                    node_type: k,
                },
            ),
            None => None,
        }
    }
}

pub open spec fn chars_view(v: Seq<Vec<char>>) -> Seq<Seq<char>> {
    v.map_values(|x: Vec<char>| x@)
}

fn words_of(s: &Vec<char>) -> (r: Vec<Vec<char>>)
    ensures
        chars_view(r@) == words(s@),
{
    let mut done: Vec<Vec<char>> = Vec::new();
    let mut cur: Vec<char> = Vec::new();
    let mut i: usize = 0;
    assert(s@.take(0) == Seq::<char>::empty());
    assert(chars_view(done@) == Seq::<Seq<char>>::empty());
    while i < s.len()
        invariant
            i <= s@.len(),
            (chars_view(done@), cur@) == word_scan(s@.take(i as int)),
        decreases s@.len() - i,
    {
        let c = s[i];
        assert(s@.take(i + 1).drop_last() == s@.take(i as int));
        if is_whitespace(c) {
            if cur.len() > 0 {
                let ghost before = done@;
                done.push(cur);
                assert(chars_view(done@) =~= chars_view(before).push(cur@));
            }
            cur = Vec::new();
        } else {
            cur.push(c);
        }
        i = i + 1;
    }
    assert(s@.take(s@.len() as int) == s@);
    if cur.len() > 0 {
        let ghost before = done@;
        done.push(cur);
        assert(chars_view(done@) =~= chars_view(before).push(cur@));
    }
    done
}

fn type_word(t: NodeType) -> (r: &'static str)
    ensures
        r@ == type_text(t),
{
    match t {
        NodeType::Line => "LINE",
        NodeType::Curve => "CURVE",
        NodeType::QCurve => "QCURVE",
        NodeType::OffCurve => "OFFCURVE",
        NodeType::LineSmooth => "LINE SMOOTH",
        NodeType::CurveSmooth => "CURVE SMOOTH",
        NodeType::QCurveSmooth => "QCURVE SMOOTH",
    }
}

fn word_type(w: &String, smooth: bool) -> (r: Option<NodeType>)
    ensures
        r == type_of_word(w@, smooth),
{
    if text_is(w, "LINE") {
        Some(if smooth { NodeType::LineSmooth } else { NodeType::Line })
    } else if text_is(w, "CURVE") {
        Some(if smooth { NodeType::CurveSmooth } else { NodeType::Curve })
    } else if text_is(w, "QCURVE") {
        Some(if smooth { NodeType::QCurveSmooth } else { NodeType::QCurve })
    } else if text_is(w, "OFFCURVE") && !smooth {
        Some(NodeType::OffCurve)
    } else {
        None
    }
}

impl Node {
    /// The text form `x y TYPE`.
    pub fn to_plist(&self) -> (r: Plist)
        ensures
            plist_view(r) == PlistModel::String(node_text(*self)),
    {
        let mut out = String::new();
        write_plain_real(self.x.units, &mut out);
        push_char(&mut out, ' ');
        write_plain_real(self.y.units, &mut out);
        push_char(&mut out, ' ');
        out.append(type_word(self.node_type));
        assert(out@ =~= node_text(*self));
        Plist::String(out)
    }

    pub fn from_plist(v: &Plist) -> (r: Result<Node, DecodeError>)
        ensures
            match plist_view(*v) {
                PlistModel::String(s) => match node_of(s) {
                    Some(n) => r == Ok::<Node, DecodeError>(n),
                    None => r is Err,
                },
                _ => r is Err,
            },
    {
        let text = match v {
            Plist::String(text) => text,
            _ => {
                return Err(DecodeError::new(DecodeErrorKind::TypeMismatch { expected: "string" }));
            },
        };
        let cs = chars_of(text.as_str());
        let w = words_of(&cs);
        if w.len() < 3 {
            return Err(DecodeError::new(DecodeErrorKind::InvalidValue { reason: "not enough parts" }));
        }
        assert(chars_view(w@)[0] == w@[0]@ && chars_view(w@)[1] == w@[1]@ && chars_view(w@)[2]
            == w@[2]@);
        let x = match loose_real_of(&w[0]) {
            Some(u) => u,
            None => {
                return Err(DecodeError::new(DecodeErrorKind::InvalidValue { reason: "could not parse x" }));
            },
        };
        let y = match loose_real_of(&w[1]) {
            Some(u) => u,
            None => {
                return Err(DecodeError::new(DecodeErrorKind::InvalidValue { reason: "could not parse y" }));
            },
        };
        let smooth = if w.len() > 3 {
            assert(chars_view(w@)[3] == w@[3]@);
            text_is(&string_of(w[3].as_slice()), "SMOOTH")
        } else {
            false
        };
        match word_type(&string_of(w[2].as_slice()), smooth) {
            Some(k) => Ok(Node { x: Real { units: x }, y: Real { units: y }, node_type: k }),
            None => Err(DecodeError::new(DecodeErrorKind::InvalidValue { reason: "unknown node type" })),
        }
    }
}

pub open spec fn has_no_ws(t: Seq<char>) -> bool {
    forall|i: int| 0 <= i < t.len() ==> !is_unicode_ws(#[trigger] t[i])
}

proof fn lemma_scan_word(t: Seq<char>)
    requires
        has_no_ws(t),
    ensures
        word_scan(t) == (Seq::<Seq<char>>::empty(), t),
    decreases t.len(),
{
    if t.len() > 0 {
        let u = t.drop_last();
        assert(has_no_ws(u)) by {
            assert forall|i: int| 0 <= i < u.len() implies !is_unicode_ws(#[trigger] u[i]) by {
                assert(u[i] == t[i]);
            }
        }
        lemma_scan_word(u);
        assert(u.push(t.last()) == t);
    } else {
        assert(t == Seq::<char>::empty());
    }
}

proof fn lemma_scan_concat(x: Seq<char>, w: Seq<char>)
    requires
        word_scan(x).1.len() == 0,
    ensures
        word_scan(x + w) == (word_scan(x).0 + word_scan(w).0, word_scan(w).1),
    decreases w.len(),
{
    if w.len() == 0 {
        assert(x + w == x);
        assert(word_scan(x).0 + Seq::<Seq<char>>::empty() == word_scan(x).0);
        assert(word_scan(x).1 == Seq::<char>::empty());
    } else {
        assert((x + w).drop_last() == x + w.drop_last());
        assert((x + w).last() == w.last());
        lemma_scan_concat(x, w.drop_last());
        let (dw, cw) = word_scan(w.drop_last());
        assert((word_scan(x).0 + dw).push(cw) == word_scan(x).0 + dw.push(cw));
    }
}

/// A word followed by a space.
proof fn lemma_scan_word_space(t: Seq<char>)
    requires
        has_no_ws(t),
        t.len() > 0,
    ensures
        word_scan(t + seq![' ']) == (seq![t], Seq::<char>::empty()),
{
    lemma_scan_word(t);
    assert((t + seq![' ']).drop_last() == t);
    assert((t + seq![' ']).last() == ' ');
    assert((' ' as u32) == 0x20);
    assert(Seq::<Seq<char>>::empty().push(t) == seq![t]);
}

proof fn lemma_literal_word(t: Seq<char>)
    requires
        t.len() > 0,
        forall|i: int| 0 <= i < t.len() ==> 'A' <= #[trigger] t[i] <= 'Z',
    ensures
        has_no_ws(t),
{
}

/// Decoding the text of a node gives the same node back.
pub proof fn lemma_text_node_round_trip(n: Node)
    ensures
        node_of(node_text(n)) == Some(n),
{
    let px = plain_real_text(n.x.units as int);
    let py = plain_real_text(n.y.units as int);
    crate::curly::lemma_plain_real(n.x.units as int);
    crate::curly::lemma_plain_real(n.y.units as int);
    assert(has_no_ws(px) && has_no_ws(py)) by {
        assert forall|i: int| 0 <= i < px.len() implies !is_unicode_ws(#[trigger] px[i]) by {
            assert(crate::curly::plain_char_ok(px[i]));
        }
        assert forall|i: int| 0 <= i < py.len() implies !is_unicode_ws(#[trigger] py[i]) by {
            assert(crate::curly::plain_char_ok(py[i]));
        }
    }
    reveal_strlit("LINE");
    reveal_strlit("CURVE");
    reveal_strlit("QCURVE");
    reveal_strlit("OFFCURVE");
    reveal_strlit("SMOOTH");
    reveal_strlit("LINE SMOOTH");
    reveal_strlit("CURVE SMOOTH");
    reveal_strlit("QCURVE SMOOTH");
    let smooth = n.node_type == NodeType::LineSmooth || n.node_type == NodeType::CurveSmooth
        || n.node_type == NodeType::QCurveSmooth;
    let kind: Seq<char> = match n.node_type {
        NodeType::Line | NodeType::LineSmooth => "LINE"@,
        NodeType::Curve | NodeType::CurveSmooth => "CURVE"@,
        NodeType::QCurve | NodeType::QCurveSmooth => "QCURVE"@,
        NodeType::OffCurve => "OFFCURVE"@,
    };
    lemma_literal_word(kind);
    lemma_literal_word("SMOOTH"@);
    let t = node_text(n);
    let sp = seq![' '];
    let head = (px + sp) + (py + sp);
    lemma_scan_word_space(px);
    lemma_scan_word_space(py);
    lemma_scan_concat(px + sp, py + sp);
    assert(word_scan(head) == (seq![px] + seq![py], Seq::<char>::empty()));
    if smooth {
        assert(type_text(n.node_type) == kind + sp + "SMOOTH"@);
        assert(t =~= head + ((kind + sp) + "SMOOTH"@));
        lemma_scan_word_space(kind);
        lemma_scan_concat(head, (kind + sp) + "SMOOTH"@);
        lemma_scan_concat(kind + sp, "SMOOTH"@);
        lemma_scan_word("SMOOTH"@);
        assert(words(t) =~= seq![px, py, kind, "SMOOTH"@]);
    } else {
        assert(type_text(n.node_type) == kind);
        assert(t =~= head + kind);
        lemma_scan_concat(head, kind);
        lemma_scan_word(kind);
        assert(words(t) =~= seq![px, py, kind]);
        assert("SMOOTH"@.len() == 6);
    }
}

} // verus!
