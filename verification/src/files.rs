//! Rows of the index as the search sees them.
use crate::query::options::Field;
use crate::text;
use crate::text::{lower_ascii, same_text};
use vstd::prelude::*;

verus! {

/// An extracted document property. A number is kept as an integer that orders as the number
/// does.
#[derive(Clone, Debug)]
pub enum PropertyValue {
    Text(String),
    Number(i64),
    Other,
}

#[derive(Clone, Debug)]
pub struct Property {
    pub key: String,
    pub value: PropertyValue,
}

/// One row of the index. The folded texts are what sorting compares, the search texts what
/// searching compares.
#[derive(Clone, Debug)]
pub struct IndexedFile {
    pub id: i64,
    pub path: String,
    pub name: String,
    pub parent: String,
    pub extension: String,
    pub folded_name: String,
    pub folded_path: String,
    pub folded_extension: String,
    pub search_name: String,
    pub search_path: String,
    pub size: u64,
    pub modified: i64,
    pub created: i64,
    pub is_dir: bool,
    pub is_symlink: bool,
    pub flags: u32,
    pub file_id: u64,
    pub volume_id: String,
    pub modified_ns: i64,
    pub changed_ns: i64,
    pub properties: Vec<Property>,
}

/// The first property of some with a key.
pub open spec fn find_property(properties: Seq<Property>, key: Seq<char>) -> Option<PropertyValue>
    decreases properties.len(),
{
    if properties.len() == 0 {
        None
    } else if properties[0].key@ == key {
        Some(properties[0].value)
    } else {
        find_property(properties.drop_first(), key)
    }
}

/// A property of a row. The author of a PDF may be kept as its artist.
pub open spec fn property_of(file: IndexedFile, key: Seq<char>) -> Option<PropertyValue> {
    match find_property(file.properties@, key) {
        Some(value) => Some(value),
        None => if key == "author"@ && text::lower(file.extension@) == "pdf"@ {
            find_property(file.properties@, "artist"@)
        } else {
            None
        },
    }
}

/// The number that a property holds, if it holds one.
pub open spec fn number_in(value: Option<PropertyValue>) -> Option<i64> {
    match value {
        Some(PropertyValue::Number(number)) => Some(number),
        _ => None,
    }
}

/// The text that a property holds, if it holds one.
pub open spec fn text_in(value: Option<PropertyValue>) -> Option<Seq<char>> {
    match value {
        Some(PropertyValue::Text(text)) => Some(text@),
        _ => None,
    }
}

impl IndexedFile {
    /// The text of a field.
    pub open spec fn field_text(&self, field: Field) -> Seq<char> {
        match field {
            Field::Name => self.name@,
            Field::Path => self.path@,
            Field::Parent => self.parent@,
        }
    }

    pub fn text(&self, field: Field) -> (text: &str)
        ensures
            text@ == self.field_text(field),
    {
        match field {
            Field::Name => self.name.as_str(),
            Field::Path => self.path.as_str(),
            Field::Parent => self.parent.as_str(),
        }
    }

    /// The property stored under exactly this key.
    pub fn stored_property(&self, key: &str) -> (value: Option<&PropertyValue>)
        ensures
            match find_property(self.properties@, key@) {
                Some(stored) => value == Some(&stored),
                None => value is None,
            },
    {
        let mut next: usize = 0;
        assert(self.properties@.skip(0) =~= self.properties@);
        while next < self.properties.len()
            invariant
                next <= self.properties@.len(),
                find_property(self.properties@, key@) == find_property(
                    self.properties@.skip(next as int),
                    key@,
                ),
            decreases self.properties@.len() - next,
        {
            let ghost rest = self.properties@.skip(next as int);
            assert(rest[0] == self.properties@[next as int]);
            assert(rest.drop_first() =~= self.properties@.skip(next + 1));
            if same_text(self.properties[next].key.as_str(), key) {
                return Some(&self.properties[next].value);
            }
            next = next + 1;
        }
        None
    }

    /// The property under this key, also as older indexes keep it.
    pub fn property(&self, key: &str) -> (value: Option<&PropertyValue>)
        ensures
            match property_of(*self, key@) {
                Some(stored) => value == Some(&stored),
                None => value is None,
            },
    {
        let stored = self.stored_property(key);
        if stored.is_some() {
            return stored;
        }
        if same_text(key, "author") {
            let extension = lower_ascii(self.extension.as_str());
            if same_text(extension.as_str(), "pdf") {
                return self.stored_property("artist");
            }
        }
        None
    }

    /// The number stored under exactly this key.
    pub fn stored_number(&self, key: &str) -> (number: Option<i64>)
        ensures
            number == number_in(find_property(self.properties@, key@)),
    {
        match self.stored_property(key) {
            Some(PropertyValue::Number(number)) => Some(*number),
            _ => None,
        }
    }
}

} // verus!
