//! The data a template is evaluated against, and the values that path
//! resolution hands back.
use vstd::prelude::*;

use crate::text::{chars_of, int_text, push_all, push_int, string_of};

verus! {

/// A node of the data tree: a keyed collection, an ordered collection, a
/// scalar, or nothing.
#[derive(Debug)]
pub enum HBData {
    Null,
    Bool(bool),
    Int(i64),
    Str(String),
    /// A scalar given by the text it renders to and its truthiness.
    Scalar(String, bool),
    Array(Vec<HBData>),
    /// Key/value pairs in order; a lookup takes the first pair with the key.
    Object(Vec<(String, HBData)>),
}

/// How a node behaves in a section: keyed collection, ordered collection,
/// scalar, or nothing.
#[derive(Debug)]
pub enum HBNodeType {
    Branch,
    Array,
    Leaf,
    Null,
}

/// The character that a decimal digit stands for, as a number.
pub open spec fn digit_value(c: char) -> int {
    c as int - '0' as int
}

pub open spec fn is_digit_char(c: char) -> bool {
    '0' <= c && c <= '9'
}

pub open spec fn all_digits(s: Seq<char>) -> bool {
    forall|i: int| 0 <= i < s.len() ==> is_digit_char(#[trigger] s[i])
}

/// The number that a string of decimal digits denotes.
pub open spec fn digits_value(s: Seq<char>) -> int
    decreases s.len(),
{
    if s.len() == 0 {
        0
    } else {
        digits_value(s.drop_last()) * 10 + digit_value(s.last())
    }
}

/// The position a key selects in an ordered collection of `len` items: the
/// key must be a non-empty run of decimal digits naming an existing position.
pub open spec fn key_index(key: Seq<char>, len: nat) -> Option<nat> {
    if key.len() > 0 && all_digits(key) && digits_value(key) < len {
        Some(digits_value(key) as nat)
    } else {
        None
    }
}

/// The value of the first pair whose key is `key`.
pub open spec fn pairs_get(pairs: Seq<(String, HBData)>, key: Seq<char>) -> Option<HBData>
    decreases pairs.len(),
{
    if pairs.len() == 0 {
        None
    } else if pairs[0].0@ == key {
        Some(pairs[0].1)
    } else {
        pairs_get(pairs.drop_first(), key)
    }
}

proof fn lemma_digits_value_grows(s: Seq<char>)
    requires
        all_digits(s),
    ensures
        0 <= digits_value(s.drop_last()) <= digits_value(s) || s.len() == 0,
        0 <= digits_value(s),
    decreases s.len(),
{
    if s.len() > 0 {
        lemma_digits_value_grows(s.drop_last());
        let v = digits_value(s.drop_last());
        assert(is_digit_char(s[s.len() - 1]));
        assert(v * 10 >= v) by (nonlinear_arith)
            requires
                v >= 0,
        ;
    }
}

proof fn lemma_digits_value_prefix(s: Seq<char>, i: int)
    requires
        all_digits(s),
        0 <= i <= s.len(),
    ensures
        digits_value(s.subrange(0, i)) <= digits_value(s),
    decreases s.len() - i,
{
    if i < s.len() {
        lemma_digits_value_prefix(s, i + 1);
        let t = s.subrange(0, i + 1);
        assert(t.drop_last() == s.subrange(0, i));
        assert(all_digits(t));
        lemma_digits_value_grows(t);
    } else {
        assert(s.subrange(0, i) == s);
    }
}

/// The position that `key` selects among `len` items, if any.
pub fn index_of_key(key: &Vec<char>, len: usize) -> (r: Option<usize>)
    ensures
        r matches Some(i) ==> key_index(key@, len as nat) == Some(i as nat) && i < len,
        r is None ==> key_index(key@, len as nat) is None,
{
    if key.len() == 0 {
        return None;
    }
    let mut i: usize = 0;
    while i < key.len()
        invariant
            i <= key@.len(),
            all_digits(key@.subrange(0, i as int)),
        decreases key@.len() - i,
    {
        let c = key[i];
        if !('0' <= c && c <= '9') {
            assert(!all_digits(key@)) by {
                assert(!is_digit_char(key@[i as int]));
            }
            return None;
        }
        let ghost u = key@.subrange(0, i + 1);
        assert forall|k: int| 0 <= k < u.len() implies is_digit_char(#[trigger] u[k]) by {
            if k < i {
                assert(u[k] == key@.subrange(0, i as int)[k]);
            }
        }
        i = i + 1;
    }
    assert(key@.subrange(0, key@.len() as int) == key@);
    proof {
        lemma_digits_value_grows(key@);
    }
    if len == 0 {
        return None;
    }
    let mut acc: u128 = 0;
    let mut j: usize = 0;
    while j < key.len()
        invariant
            j <= key@.len(),
            all_digits(key@),
            acc == digits_value(key@.subrange(0, j as int)),
            acc < len,
        decreases key@.len() - j,
    {
        let d: u128 = (key[j] as u32 - '0' as u32) as u128;
        let ghost t = key@.subrange(0, j + 1);
        assert(t.drop_last() == key@.subrange(0, j as int));
        assert(is_digit_char(key@[j as int]));
        assert(all_digits(t)) by {
            assert forall|k: int| 0 <= k < t.len() implies is_digit_char(#[trigger] t[k]) by {
                assert(t[k] == key@[k]);
            }
        }
        assert(acc * 10 + d <= (len as u128) * 10 + 9) by (nonlinear_arith)
            requires
                acc < len,
                d <= 9,
        ;
        let next: u128 = acc * 10 + d;
        if next >= len as u128 {
            proof {
                lemma_digits_value_prefix(key@, j + 1);
            }
            return None;
        }
        acc = next;
        j = j + 1;
    }
    assert(key@.subrange(0, key@.len() as int) == key@);
    Some(acc as usize)
}

/// The value of the first pair whose key is `key`.
pub fn pairs_lookup<'a>(pairs: &'a Vec<(String, HBData)>, key: &String) -> (r: Option<&'a HBData>)
    ensures
        r matches Some(d) ==> pairs_get(pairs@, key@) == Some(*d),
        r is None ==> pairs_get(pairs@, key@) is None,
{
    let mut i: usize = 0;
    assert(pairs@.subrange(0, pairs@.len() as int) == pairs@);
    while i < pairs.len()
        invariant
            i <= pairs@.len(),
            pairs_get(pairs@, key@) == pairs_get(pairs@.subrange(i as int, pairs@.len() as int), key@),
        decreases pairs@.len() - i,
    {
        let ghost rest = pairs@.subrange(i as int, pairs@.len() as int);
        assert(rest.drop_first() == pairs@.subrange(i + 1, pairs@.len() as int));
        assert(rest[0] == pairs@[i as int]);
        if pairs[i].0 == *key {
            return Some(&pairs[i].1);
        }
        i = i + 1;
    }
    None
}

impl HBData {
    pub open spec fn spec_node_type(&self) -> HBNodeType {
        match self {
            HBData::Object(_) => HBNodeType::Branch,
            HBData::Array(_) => HBNodeType::Array,
            HBData::Null => HBNodeType::Null,
            _ => HBNodeType::Leaf,
        }
    }

    /// Whether a section over this node renders its block.
    pub open spec fn spec_as_bool(&self) -> bool {
        match self {
            HBData::Null => false,
            HBData::Bool(b) => *b,
            HBData::Int(i) => *i != 0,
            HBData::Str(s) => s@.len() > 0,
            HBData::Scalar(_, t) => *t,
            HBData::Array(a) => a@.len() > 0,
            HBData::Object(_) => true,
        }
    }

    /// The child that `key` names: a pair of a keyed collection, or a
    /// position of an ordered collection.
    pub open spec fn spec_get_key(&self, key: Seq<char>) -> Option<HBData> {
        match self {
            HBData::Object(pairs) => pairs_get(pairs@, key),
            HBData::Array(items) => match key_index(key, items@.len()) {
                Some(i) => Some(items@[i as int]),
                None => None,
            },
            _ => None,
        }
    }

    /// What writing the node outputs: scalars their text, ordered collections
    /// their items separated by commas, anything else nothing.
    pub open spec fn text(&self) -> Seq<char>
        decreases self,
    {
        match self {
            HBData::Bool(b) => if *b { seq!['t', 'r', 'u', 'e'] } else { seq!['f', 'a', 'l', 's', 'e'] },
            HBData::Int(i) => int_text(*i as int),
            HBData::Str(s) => s@,
            HBData::Scalar(s, _) => s@,
            HBData::Array(items) => items_text(items@),
            _ => Seq::empty(),
        }
    }

    pub fn typed_node(&self) -> (r: HBNodeType)
        ensures
            r == self.spec_node_type(),
    {
        match self {
            HBData::Object(_) => HBNodeType::Branch,
            HBData::Array(_) => HBNodeType::Array,
            HBData::Null => HBNodeType::Null,
            _ => HBNodeType::Leaf,
        }
    }

    pub fn as_bool(&self) -> (r: bool)
        ensures
            r == self.spec_as_bool(),
    {
        match self {
            HBData::Null => false,
            HBData::Bool(b) => *b,
            HBData::Int(i) => *i != 0,
            HBData::Str(s) => !s.as_str().is_empty(),
            HBData::Scalar(_, t) => *t,
            HBData::Array(a) => a.len() > 0,
            HBData::Object(_) => true,
        }
    }

    pub fn get_key<'a>(&'a self, key: &String) -> (r: Option<&'a HBData>)
        ensures
            r matches Some(d) ==> self.spec_get_key(key@) == Some(*d),
            r is None ==> self.spec_get_key(key@) is None,
    {
        match self {
            HBData::Object(pairs) => pairs_lookup(pairs, key),
            HBData::Array(items) => {
                let k = chars_of(key.as_str());
                match index_of_key(&k, items.len()) {
                    Some(i) => {
                        assert(i < items@.len());
                        Some(&items[i])
                    },
                    None => None,
                }
            },
            _ => None,
        }
    }

    /// Appends the node's text to `out`.
    pub fn write_value(&self, out: &mut Vec<char>)
        ensures
            final(out)@ == old(out)@ + self.text(),
        decreases self,
    {
        match self {
            HBData::Bool(b) => {
                if *b {
                    out.push('t'); out.push('r'); out.push('u'); out.push('e');
                } else {
                    out.push('f'); out.push('a'); out.push('l'); out.push('s'); out.push('e');
                }
            },
            HBData::Int(i) => push_int(out, *i),
            HBData::Str(s) => {
                let v = chars_of(s.as_str());
                push_all(out, &v);
            },
            HBData::Scalar(s, _) => {
                let v = chars_of(s.as_str());
                push_all(out, &v);
            },
            HBData::Array(items) => {
                let mut i: usize = 0;
                while i < items.len()
                    invariant
                        i <= items@.len(),
                        out@ == old(out)@ + items_text(items@.subrange(0, i as int)),
                        *self is Array,
                        self->Array_0 == *items,
                    decreases items@.len() - i,
                {
                    proof {
                        lemma_item_decreases(*self, i as int);
                    }
                    if i > 0 {
                        out.push(',');
                    }
                    items[i].write_value(out);
                    let ghost t = items@.subrange(0, i + 1);
                    assert(t.drop_last() == items@.subrange(0, i as int));
                    i = i + 1;
                }
                assert(items@.subrange(0, items@.len() as int) == items@);
            },
            _ => {},
        }
    }
}

/// The texts of the items, separated by commas.
pub open spec fn items_text(items: Seq<HBData>) -> Seq<char>
    decreases items,
{
    if items.len() == 0 {
        Seq::empty()
    } else if items.len() == 1 {
        items[0].text()
    } else {
        items_text(items.drop_last()) + seq![','] + items.last().text()
    }
}

/// A value met while resolving a path: a node of the data, a value that the
/// evaluator supplies (a position, a flag, a key or a literal), or a context
/// whose misses fall back to one named option of a partial call.
pub enum Node<'a> {
    Null,
    Data(&'a HBData),
    Index(usize),
    Flag(bool),
    Text(&'a String),
    /// A base context, the name of an option and the option's value.
    Layer(Box<Node<'a>>, &'a String, Box<Node<'a>>),
}

impl<'a> Node<'a> {
    pub open spec fn spec_node_type(&self) -> HBNodeType
        decreases self,
    {
        match self {
            Node::Null => HBNodeType::Null,
            Node::Data(d) => d.spec_node_type(),
            Node::Layer(inner, _, _) => inner.spec_node_type(),
            _ => HBNodeType::Leaf,
        }
    }

    pub open spec fn spec_as_bool(&self) -> bool
        decreases self,
    {
        match self {
            Node::Null => false,
            Node::Data(d) => d.spec_as_bool(),
            Node::Index(i) => *i != 0,
            Node::Flag(b) => *b,
            Node::Text(s) => s@.len() > 0,
            Node::Layer(inner, _, _) => inner.spec_as_bool(),
        }
    }

    pub open spec fn text(&self) -> Seq<char>
        decreases self,
    {
        match self {
            Node::Null => Seq::empty(),
            Node::Data(d) => d.text(),
            Node::Index(i) => int_text(*i as int),
            Node::Flag(b) => if *b { seq!['t', 'r', 'u', 'e'] } else { seq!['f', 'a', 'l', 's', 'e'] },
            Node::Text(s) => s@,
            Node::Layer(inner, _, _) => inner.text(),
        }
    }

    /// The child that `key` names; a layered context asks its base first and
    /// its option after.
    pub open spec fn spec_get_key(&self, key: Seq<char>) -> Option<Node<'a>>
        decreases self,
    {
        match self {
            Node::Data(d) => match d.spec_get_key(key) {
                Some(c) => Some(Node::Data(&c)),
                None => None,
            },
            Node::Layer(inner, name, value) => match inner.spec_get_key(key) {
                Some(c) => Some(c),
                None => if name@ == key { Some(**value) } else { None },
            },
            _ => None,
        }
    }

    /// The items of the ordered collection under this value (none for other values).
    pub open spec fn spec_items(&self) -> Seq<HBData>
        decreases self,
    {
        match self {
            Node::Data(d) => match **d {
                HBData::Array(v) => v@,
                _ => Seq::empty(),
            },
            Node::Layer(inner, _, _) => inner.spec_items(),
            _ => Seq::empty(),
        }
    }

    /// The pairs of the keyed collection under this value (none for other values).
    pub open spec fn spec_pairs(&self) -> Seq<(String, HBData)>
        decreases self,
    {
        match self {
            Node::Data(d) => match **d {
                HBData::Object(p) => p@,
                _ => Seq::empty(),
            },
            Node::Layer(inner, _, _) => inner.spec_pairs(),
            _ => Seq::empty(),
        }
    }

    pub fn array_items(&self) -> (r: Option<&'a Vec<HBData>>)
        ensures
            r matches Some(v) ==> v@ == self.spec_items(),
            r is None ==> self.spec_items().len() == 0,
        decreases self,
    {
        match self {
            Node::Data(d) => match *d {
                HBData::Array(v) => Some(v),
                _ => None,
            },
            Node::Layer(inner, _, _) => inner.array_items(),
            _ => None,
        }
    }

    pub fn object_pairs(&self) -> (r: Option<&'a Vec<(String, HBData)>>)
        ensures
            r matches Some(p) ==> p@ == self.spec_pairs(),
            r is None ==> self.spec_pairs().len() == 0,
        decreases self,
    {
        match self {
            Node::Data(d) => match *d {
                HBData::Object(p) => Some(p),
                _ => None,
            },
            Node::Layer(inner, _, _) => inner.object_pairs(),
            _ => None,
        }
    }

    pub fn typed_node(&self) -> (r: HBNodeType)
        ensures
            r == self.spec_node_type(),
        decreases self,
    {
        match self {
            Node::Null => HBNodeType::Null,
            Node::Data(d) => d.typed_node(),
            Node::Layer(inner, _, _) => inner.typed_node(),
            _ => HBNodeType::Leaf,
        }
    }

    pub fn as_bool(&self) -> (r: bool)
        ensures
            r == self.spec_as_bool(),
        decreases self,
    {
        match self {
            Node::Null => false,
            Node::Data(d) => d.as_bool(),
            Node::Index(i) => *i != 0,
            Node::Flag(b) => *b,
            Node::Text(s) => !s.as_str().is_empty(),
            Node::Layer(inner, _, _) => inner.as_bool(),
        }
    }

    /// Appends the value's text to `out`.
    pub fn write_value(&self, out: &mut Vec<char>)
        ensures
            final(out)@ == old(out)@ + self.text(),
        decreases self,
    {
        match self {
            Node::Null => {},
            Node::Data(d) => d.write_value(out),
            Node::Index(i) => {
                crate::text::push_decimal(out, *i as u64);
            },
            Node::Flag(b) => {
                if *b {
                    out.push('t'); out.push('r'); out.push('u'); out.push('e');
                } else {
                    out.push('f'); out.push('a'); out.push('l'); out.push('s'); out.push('e');
                }
            },
            Node::Text(s) => {
                let v = chars_of(s.as_str());
                push_all(out, &v);
            },
            Node::Layer(inner, _, _) => inner.write_value(out),
        }
    }

    pub fn get_key(&self, key: &String) -> (r: Option<Node<'a>>)
        ensures
            r == self.spec_get_key(key@),
        decreases self,
    {
        match self {
            Node::Data(d) => match d.get_key(key) {
                Some(c) => Some(Node::Data(c)),
                None => None,
            },
            Node::Layer(inner, name, value) => match inner.get_key(key) {
                Some(c) => Some(c),
                None => if **name == *key { Some(value.copy()) } else { None },
            },
            _ => None,
        }
    }

    /// A copy of the value.
    pub fn copy(&self) -> (r: Node<'a>)
        ensures
            r == *self,
        decreases self,
    {
        match self {
            Node::Null => Node::Null,
            Node::Data(d) => Node::Data(d),
            Node::Index(i) => Node::Index(*i),
            Node::Flag(b) => Node::Flag(*b),
            Node::Text(s) => Node::Text(s),
            Node::Layer(inner, name, value) => Node::Layer(Box::new(inner.copy()), name, Box::new(value.copy())),
        }
    }
}

/// An item of an ordered collection is smaller than the collection.
proof fn lemma_item_decreases(d: HBData, i: int)
    requires
        d is Array,
        0 <= i < d->Array_0@.len(),
    ensures
        decreases_to!(d => d->Array_0@[i]),
{
    assert(decreases_to!(d => d->Array_0));
    assert(decreases_to!(d->Array_0 => d->Array_0@));
    assert(decreases_to!(d->Array_0@ => d->Array_0@[i]));
}

/// Copies a sequence of values.
pub fn copy_nodes<'a>(v: &Vec<Node<'a>>) -> (r: Vec<Node<'a>>)
    ensures
        r@ == v@,
{
    let mut r: Vec<Node<'a>> = Vec::new();
    let mut i: usize = 0;
    while i < v.len()
        invariant
            i <= v@.len(),
            r@ == v@.subrange(0, i as int),
        decreases v@.len() - i,
    {
        r.push(v[i].copy());
        i = i + 1;
        assert(r@ == v@.subrange(0, i as int));
    }
    assert(v@.subrange(0, v@.len() as int) == v@);
    r
}

} // verus!
