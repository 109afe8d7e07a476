use vstd::prelude::*;

use crate::bridge::{DecodeError, DecodeErrorKind};
use crate::enums::{node_type_name, NodeType};
use crate::value::{items_view, plist_view, Plist, PlistModel, Real};

verus! {

/// A number of the value tree in ten-thousandths: integers and reals alike.
pub open spec fn real_of(m: PlistModel) -> Option<int> {
    match m {
        PlistModel::Integer(n) => if i64::MIN <= n * 10000 <= i64::MAX {
            Some(n * 10000)
        } else {
            None
        },
        PlistModel::Float(u) => Some(u),
        _ => None,
    }
}

/// A coordinate as a value: a whole number is written as an integer.
pub open spec fn coordinate_model(u: int) -> PlistModel {
    if u % 10000 == 0 {
        PlistModel::Integer(u / 10000)
    } else {
        PlistModel::Float(u)
    }
}

/// A node of a path: its position, its kind, and optional user data.
#[derive(Debug)]
pub struct Node {
    pub x: Real,
    pub y: Real,
    pub node_type: NodeType,
    pub user_data: Option<Plist>,
}

/// The compact tuple form `(x, y, type)`, with the user data as a fourth
/// element when there is some.
pub open spec fn node_model(n: Node) -> PlistModel {
    PlistModel::Array(
        seq![
            coordinate_model(n.x.units as int),
            coordinate_model(n.y.units as int),
            PlistModel::String(node_type_name(n.node_type)),
        ] + match n.user_data {
            Some(p) => seq![plist_view(p)],
            None => Seq::empty(),
        },
    )
}

pub open spec fn node_decodable(m: PlistModel) -> bool {
    match m {
        PlistModel::Array(items) => {
            &&& items.len() >= 3
            &&& real_of(items[0]) is Some
            &&& real_of(items[1]) is Some
            &&& exists|t: NodeType| items[2] == PlistModel::String(node_type_name(t))
        },
        _ => false,
    }
}

pub open spec fn node_decodes(m: PlistModel, n: Node) -> bool {
    match m {
        PlistModel::Array(items) => {
            &&& items.len() >= 3
            &&& real_of(items[0]) == Some(n.x.units as int)
            &&& real_of(items[1]) == Some(n.y.units as int)
            &&& items[2] == PlistModel::String(node_type_name(n.node_type))
            &&& match n.user_data {
                Some(p) => items.len() >= 4 && plist_view(p) == items[3],
                None => items.len() == 3,
            }
        },
        _ => false,
    }
}

fn coordinate(v: &Plist) -> (r: Option<Real>)
    ensures
        match real_of(plist_view(*v)) {
            Some(u) => r matches Some(x) && x.units == u,
            None => r is None,
        },
{
    match v {
        Plist::Integer(n) => {
            let wide: i128 = (*n as i128) * 10000;
            if i64::MIN as i128 <= wide && wide <= i64::MAX as i128 {
                Some(Real { units: wide as i64 })
            } else {
                None
            }
        },
        Plist::Float(r) => Some(*r),
        _ => None,
    }
}

fn coordinate_plist(r: Real) -> (p: Plist)
    ensures
        plist_view(p) == coordinate_model(r.units as int),
{
    if r.units % 10000 == 0 {
        Plist::Integer(r.units / 10000)
    } else {
        Plist::Float(r)
    }
}

impl Node {
    pub fn to_plist(&self) -> (r: Plist)
        ensures
            plist_view(r) == node_model(*self),
    {
        let mut items: Vec<Plist> = Vec::new();
        items.push(coordinate_plist(self.x));
        items.push(coordinate_plist(self.y));
        items.push(self.node_type.to_plist());
        match &self.user_data {
            Some(p) => items.push(p.deep_clone()),
            None => {},
        }
        proof {
            crate::ser::lemma_items_view(items@);
        }
        assert(items_view(items@) =~= node_model(*self)->Array_0);
        Plist::Array(items)
    }

    /// The text of the node as a fixed tuple: `(x, y, type)`, on one line
    /// whatever its user data.
    pub fn to_tuple_string(&self) -> (r: String)
        ensures
            r@ == crate::ser::tuple_text(node_model(*self)->Array_0),
    {
        let items = match self.to_plist() {
            Plist::Array(items) => items,
            _ => Vec::new(),
        };
        crate::ser::tuple_to_string(&items)
    }

    pub fn from_plist(v: &Plist) -> (r: Result<Node, DecodeError>)
        ensures
            r is Ok <==> node_decodable(plist_view(*v)),
            r matches Ok(n) ==> node_decodes(plist_view(*v), n),
    {
        let items = match v {
            Plist::Array(items) => items,
            _ => {
                return Err(DecodeError::new(DecodeErrorKind::TypeMismatch { expected: "array" }));
            },
        };
        proof {
            crate::ser::lemma_items_view(items@);
        }
        if items.len() < 3 {
            return Err(DecodeError::new(DecodeErrorKind::InvalidValue { reason: "a tuple of 3 or 4 elements" }));
        }
        let x = match coordinate(&items[0]) {
            Some(x) => x,
            None => {
                return Err(DecodeError::new(DecodeErrorKind::TypeMismatch { expected: "number" }).within_index(0));
            },
        };
        let y = match coordinate(&items[1]) {
            Some(y) => y,
            None => {
                return Err(DecodeError::new(DecodeErrorKind::TypeMismatch { expected: "number" }).within_index(1));
            },
        };
        let node_type = match NodeType::from_plist(&items[2]) {
            Ok(t) => t,
            Err(e) => {
                return Err(e.within_index(2));
            },
        };
        let user_data = if items.len() >= 4 {
            Some(items[3].deep_clone())
        } else {
            None
        };
        Ok(Node { x, y, node_type, user_data })
    }
}

/// Encoding a node and decoding the result gives the same node back.
pub proof fn lemma_node_round_trip(n: Node)
    ensures
        node_decodable(node_model(n)),
        node_decodes(node_model(n), n),
{
    let items = node_model(n)->Array_0;
    let ux = n.x.units as int;
    let uy = n.y.units as int;
    assert(ux % 10000 == 0 ==> (ux / 10000) * 10000 == ux);
    assert(uy % 10000 == 0 ==> (uy / 10000) * 10000 == uy);
    assert(items[2] == PlistModel::String(node_type_name(n.node_type)));
}

} // verus!
