//! The parts of the protobuf descriptor messages that tables are built from:
//! files, messages and their fields.
use vstd::prelude::*;
use std::string::String;

verus! {

/// Whether a field is optional, required or repeated.
#[derive(Clone, Copy, PartialEq, Eq, Debug, Structural)]
pub enum Label {
    Optional,
    Required,
    Repeated,
}

/// The declared type of a field.
#[derive(Clone, Copy, PartialEq, Eq, Debug, Structural)]
pub enum FieldType {
    Double,
    Float,
    Int64,
    Uint64,
    Int32,
    Fixed64,
    Fixed32,
    Bool,
    String,
    Group,
    Message,
    Bytes,
    Uint32,
    Enum,
    Sfixed32,
    Sfixed64,
    Sint32,
    Sint64,
}

/// The field options that tables depend on: the `packed` option, where it is
/// given.
#[derive(Clone, Copy, PartialEq, Eq, Debug, Structural)]
pub struct FieldOptions {
    pub packed: Option<bool>,
}

/// A field of a message type.
pub struct FieldDescriptorProto {
    pub name: String,
    pub number: i32,
    pub label: Label,
    pub field_type: FieldType,
    /// The type of a message or group field, as `.package.Name`.
    pub child_type: String,
    pub json_name: String,
    pub options: Option<FieldOptions>,
}

/// A message type: its fields and the types declared inside it.
pub struct DescriptorProto {
    pub name: String,
    pub field: Vec<FieldDescriptorProto>,
    pub nested_type: Vec<DescriptorProto>,
    /// Whether this is the entry type of a map field (its `map_entry` option).
    pub map_entry: bool,
}

/// A `.proto` file: its package, syntax and top-level message types.
pub struct FileDescriptorProto {
    pub name: String,
    pub package: Option<String>,
    pub message_type: Vec<DescriptorProto>,
    pub syntax: Option<String>,
}

/// A field as mathematical values.
pub struct FieldView {
    pub name: Seq<char>,
    pub number: i32,
    pub label: Label,
    pub field_type: FieldType,
    pub child_type: Seq<char>,
    pub json_name: Seq<char>,
    pub options: Option<FieldOptions>,
}

/// A message type as mathematical values.
pub struct MessageView {
    pub name: Seq<char>,
    pub fields: Seq<FieldView>,
    pub nested: Seq<MessageView>,
    pub map_entry: bool,
}

impl View for FieldDescriptorProto {
    type V = FieldView;

    open spec fn view(&self) -> FieldView {
        FieldView {
            name: self.name@,
            number: self.number,
            label: self.label,
            field_type: self.field_type,
            child_type: self.child_type@,
            json_name: self.json_name@,
            options: self.options,
        }
    }
}

pub open spec fn message_view(d: DescriptorProto) -> MessageView
    decreases d,
{
    MessageView {
        name: d.name@,
        fields: d.field@.map_values(|f: FieldDescriptorProto| f@),
        nested: Seq::new(
            d.nested_type@.len(),
            |i: int|
                if 0 <= i < d.nested_type@.len() {
                    proof {
                        assert(decreases_to!(d.nested_type => d.nested_type@));
                        assert(decreases_to!(d.nested_type@ => d.nested_type@[i]));
                    }
                    message_view(d.nested_type@[i])
                } else {
                    MessageView { name: Seq::empty(), fields: Seq::empty(), nested: Seq::empty(), map_entry: false }
                },
        ),
        map_entry: d.map_entry,
    }
}

impl View for DescriptorProto {
    type V = MessageView;

    open spec fn view(&self) -> MessageView {
        message_view(*self)
    }
}

impl FieldDescriptorProto {
    /// A copy of this field.
    pub fn copy(&self) -> (r: Self)
        ensures
            r@ == self@,
    {
        FieldDescriptorProto {
            name: self.name.clone(),
            number: self.number,
            label: self.label,
            field_type: self.field_type,
            child_type: self.child_type.clone(),
            json_name: self.json_name.clone(),
            options: self.options,
        }
    }
}

impl DescriptorProto {
    /// A copy of this message type, nested types included.
    pub fn copy(&self) -> (r: Self)
        ensures
            r@ == self@,
        decreases self,
    {
        let mut field: Vec<FieldDescriptorProto> = Vec::new();
        let mut i: usize = 0;
        while i < self.field.len()
            invariant
                i <= self.field@.len(),
                field@.len() == i,
                forall|j: int| 0 <= j < i ==> (#[trigger] field@[j])@ == self.field@[j]@,
            decreases self.field@.len() - i,
        {
            field.push(self.field[i].copy());
            i += 1;
        }
        let mut nested_type: Vec<DescriptorProto> = Vec::new();
        let mut k: usize = 0;
        while k < self.nested_type.len()
            invariant
                k <= self.nested_type@.len(),
                nested_type@.len() == k,
                forall|j: int| 0 <= j < k ==> (#[trigger] nested_type@[j])@ == self.nested_type@[j]@,
            decreases self.nested_type@.len() - k,
        {
            proof {
                assert(decreases_to!(self.nested_type => self.nested_type@));
                assert(decreases_to!(self.nested_type@ => self.nested_type@[k as int]));
            }
            nested_type.push(self.nested_type[k].copy());
            k += 1;
        }
        let r = DescriptorProto { name: self.name.clone(), field, nested_type, map_entry: self.map_entry };
        assert(r@.fields =~= self@.fields);
        assert(r@.nested =~= self@.nested);
        r
    }
}

} // verus!
