//! Attributes: their records in the document and the handles that read them.

use vstd::prelude::*;
use crate::defs::XmlLocation;
use crate::document::{Document, text_of};
use crate::node::{Node, str_equal};
use crate::node_type::{NodeType, copy_location, location_within};

verus! {

/// The record of an attribute: where its name and its value stand in the buffer.
#[derive(Debug, PartialEq, Eq)]
pub struct AttributeInfo {
    pub name: XmlLocation,
    pub value: XmlLocation,
}

impl Clone for AttributeInfo {
    fn clone(&self) -> (r: Self)
        ensures
            r == *self,
    {
        AttributeInfo { name: copy_location(&self.name), value: copy_location(&self.value) }
    }
}

impl AttributeInfo {
    /// A record with the given places.
    pub fn new(name: XmlLocation, value: XmlLocation) -> (r: Self)
        ensures
            r == (AttributeInfo { name, value }),
    {
        AttributeInfo { name, value }
    }
}

/// An attribute of an element of a document.
#[derive(Debug, Clone, Copy)]
pub struct Attribute<'a> {
    pub doc: &'a Document,
    pub data: &'a AttributeInfo,
}

/// The handle on the attribute of `doc` whose record is `data`.
pub open spec fn attribute_at<'a>(doc: &'a Document, data: AttributeInfo) -> Attribute<'a> {
    Attribute { doc, data: &data }
}

impl<'xml> Attribute<'xml> {
    /// The places of the attribute lie within the buffer of its document.
    pub open spec fn wf(&self) -> bool {
        &&& location_within(self.data.name, self.doc.xml@.len() as int)
        &&& location_within(self.data.value, self.doc.xml@.len() as int)
    }

    /// The name of the attribute.
    pub fn name(&self) -> (r: &'xml str)
        requires
            self.wf(),
        ensures
            r@ == text_of(self.doc@.bytes_at(self.data.name)),
    {
        self.doc.get_str_from_location(copy_location(&self.data.name))
    }

    /// Whether the attribute has the given name.
    pub fn is(&self, name: &str) -> (r: bool)
        requires
            self.wf(),
        ensures
            r == (text_of(self.doc@.bytes_at(self.data.name)) == name@),
    {
        str_equal(self.name(), name)
    }

    /// The value of the attribute.
    pub fn value(&self) -> (r: &'xml str)
        requires
            self.wf(),
        ensures
            r@ == text_of(self.doc@.bytes_at(self.data.value)),
    {
        self.doc.get_str_from_location(copy_location(&self.data.value))
    }
}

/// A walk over the attributes of a node, from either end.
#[derive(Debug, Clone, Copy)]
pub struct Attributes<'a> {
    pub doc: &'a Document,
    /// The index of the next attribute from the front.
    pub front: usize,
    /// The index after the next attribute from the back.
    pub back: usize,
}

impl<'a> Attributes<'a> {
    /// The walk is over a run of attributes of a well-formed document.
    pub open spec fn wf(&self) -> bool {
        &&& self.doc.wf()
        &&& self.front <= self.back <= self.doc.attributes@.len()
    }

    /// The records of the attributes that the walk has not come to yet.
    pub open spec fn remaining(&self) -> Seq<AttributeInfo> {
        self.doc.attributes@.subrange(self.front as int, self.back as int)
    }

    /// The walk over the attributes of `node`.
    pub fn new(node: &Node<'a>) -> (r: Attributes<'a>)
        requires
            node.wf(),
        ensures
            r.wf(),
            r.doc == node.doc,
            r.remaining() == node.doc@.attributes_of(node.idx),
    {
        match node.node_info.node_type() {
            NodeType::Element { attributes, .. } => Attributes {
                doc: node.doc,
                front: attributes.start as usize,
                back: attributes.end as usize,
            },
            _ => {
                proof {
                    assert(node.doc.attributes@.subrange(0, 0) =~= Seq::empty());
                }
                Attributes { doc: node.doc, front: 0, back: 0 }
            },
        }
    }

    /// The handle on the attribute with index `i`.
    fn at(&self, i: usize) -> (r: Attribute<'a>)
        requires
            self.wf(),
            i < self.doc.attributes@.len(),
        ensures
            r == attribute_at(self.doc, self.doc.attributes@[i as int]),
            r.wf(),
    {
        Attribute { doc: self.doc, data: &self.doc.attributes[i] }
    }

    /// The next attribute from the front.
    pub fn next(&mut self) -> (r: Option<Attribute<'a>>)
        requires
            old(self).wf(),
        ensures
            final(self).wf(),
            final(self).doc == old(self).doc,
            match r {
                Some(attribute) => old(self).remaining().len() > 0 && attribute == attribute_at(
                    old(self).doc,
                    old(self).remaining()[0],
                ) && attribute.wf() && final(self).remaining() == old(self).remaining().drop_first(),
                None => old(self).remaining().len() == 0 && *final(self) == *old(self),
            },
    {
        if self.front < self.back {
            let attribute = self.at(self.front);
            self.front = self.front + 1;
            proof {
                assert(self.remaining() =~= old(self).remaining().drop_first());
            }
            Some(attribute)
        } else {
            None
        }
    }

    /// The next attribute from the back.
    pub fn next_back(&mut self) -> (r: Option<Attribute<'a>>)
        requires
            old(self).wf(),
        ensures
            final(self).wf(),
            final(self).doc == old(self).doc,
            match r {
                Some(attribute) => old(self).remaining().len() > 0 && attribute == attribute_at(
                    old(self).doc,
                    old(self).remaining().last(),
                ) && attribute.wf() && final(self).remaining() == old(self).remaining().drop_last(),
                None => old(self).remaining().len() == 0 && *final(self) == *old(self),
            },
    {
        if self.front < self.back {
            self.back = self.back - 1;
            let attribute = self.at(self.back);
            proof {
                assert(self.remaining() =~= old(self).remaining().drop_last());
            }
            Some(attribute)
        } else {
            None
        }
    }

    /// The attribute that comes after `n` attributes from the front, which
    /// the walk then has passed; where there are no more than `n`, the walk is at its end.
    pub fn nth(&mut self, n: usize) -> (r: Option<Attribute<'a>>)
        requires
            old(self).wf(),
        ensures
            final(self).wf(),
            final(self).doc == old(self).doc,
            match r {
                Some(attribute) => n < old(self).remaining().len() && attribute == attribute_at(
                    old(self).doc,
                    old(self).remaining()[n as int],
                ) && attribute.wf() && final(self).remaining() == old(self).remaining().skip(n + 1),
                None => n >= old(self).remaining().len() && final(self).remaining().len() == 0,
            },
    {
        if n < self.back - self.front {
            let attribute = self.at(self.front + n);
            self.front = self.front + n + 1;
            proof {
                assert(self.remaining() =~= old(self).remaining().skip(n + 1));
            }
            Some(attribute)
        } else {
            self.front = self.back;
            None
        }
    }

    /// How many attributes are left.
    pub fn len(&self) -> (r: usize)
        requires
            self.wf(),
        ensures
            r == self.remaining().len(),
    {
        self.back - self.front
    }

    /// How many attributes are left, as the bounds of a size hint.
    pub fn size_hint(&self) -> (r: (usize, Option<usize>))
        requires
            self.wf(),
        ensures
            r.0 == self.remaining().len(),
            r.1 == Some(r.0),
    {
        (self.back - self.front, Some(self.back - self.front))
    }

    /// How many attributes are left.
    pub fn count(self) -> (r: usize)
        requires
            self.wf(),
        ensures
            r == self.remaining().len(),
    {
        self.back - self.front
    }

    /// The attributes that are left, from the front.
    pub fn collect(self) -> (r: Vec<Attribute<'a>>)
        requires
            self.wf(),
        ensures
            r@.len() == self.remaining().len(),
            forall|i: int|
                0 <= i < r@.len() ==> (#[trigger] r@[i]) == attribute_at(
                    self.doc,
                    self.remaining()[i],
                ) && r@[i].wf(),
    {
        let mut all: Vec<Attribute<'a>> = Vec::new();
        let mut i = self.front;
        while i < self.back
            invariant
                self.wf(),
                self.front <= i <= self.back,
                all@.len() == i - self.front,
                forall|k: int|
                    0 <= k < all@.len() ==> (#[trigger] all@[k]) == attribute_at(
                        self.doc,
                        self.remaining()[k],
                    ) && all@[k].wf(),
            decreases self.back - i,
        {
            all.push(self.at(i));
            i += 1;
        }
        all
    }
}

} // verus!
