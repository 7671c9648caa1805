//! Directory entries: the storages and streams of a container.
//!
//! The directory is an array of records of 128 bytes each. An entry's id
//! is the position of its record in that array.
//!
//! | offset | size | field                                  |
//! |--------|------|----------------------------------------|
//! | 0      | 64   | name, UTF-16, ended by a null code unit |
//! | 66     | 1    | kind of the entry                      |
//! | 67     | 1    | colour of the entry in its tree        |
//! | 68     | 4    | id of the left sibling                 |
//! | 72     | 4    | id of the right sibling                |
//! | 76     | 4    | id of the root of the entry's own children |
//! | 80     | 16   | class identifier                       |
//! | 96     | 4    | flags                                  |
//! | 100    | 8    | creation time                          |
//! | 108    | 8    | last modification time                 |
//! | 116    | 4    | first sector of the stream             |
//! | 120    | 4, 8 with sectors of 4096 bytes | size of the stream |

use vstd::prelude::*;
use crate::constants::DIRECTORY_ENTRY_SIZE;
use crate::error::Error;
use crate::util::le_u16;
use crate::util::le_u32;
use crate::util::le_u64;
use crate::util::read_u16;
use crate::util::read_u32;
use crate::util::read_u64;

verus! {

/// Colour of an entry in the red-black tree of its siblings.
#[derive(Debug, Clone, Copy, PartialEq, Eq, Structural)]
pub enum NodeColour {
    Red,
    Black,
}

/// The colour that the byte `t` stands for, if it stands for one.
pub open spec fn colour_of(t: u8) -> Option<NodeColour> {
    if t == 0 {
        Some(NodeColour::Red)
    } else if t == 1 {
        Some(NodeColour::Black)
    } else {
        None
    }
}

impl NodeColour {
    /// Decodes the colour byte of a record: 0 is red, 1 is black, any other
    /// value is `InvalidFormat`.
    pub fn from(t: u8) -> (r: Result<NodeColour, Error>)
        ensures
            match r {
                Ok(colour) => colour_of(t) == Some(colour),
                Err(e) => colour_of(t) is None && e == Error::InvalidFormat,
            },
    {
        match t {
            0 => Ok(NodeColour::Red),
            1 => Ok(NodeColour::Black),
            _ => Err(Error::InvalidFormat),
        }
    }

    /// The name of the colour, in capitals.
    pub fn label(&self) -> (text: &'static str)
        ensures
            text@ == (match *self {
                NodeColour::Red => "RED"@,
                NodeColour::Black => "BLACK"@,
            }),
    {
        match *self {
            NodeColour::Red => "RED",
            NodeColour::Black => "BLACK",
        }
    }
}

/// Kind of a directory entry.
#[derive(Debug, Clone, Copy, PartialEq, Eq, Structural)]
pub enum EntryType {
    /// Empty entry.
    Empty,
    /// Storage, i.e. a directory.
    UserStorage,
    /// Stream, i.e. a file.
    UserStream,
    /// LockBytes (unknown usage).
    LockBytes,
    /// Property (unknown usage).
    Property,
    /// Root storage.
    RootStorage,
}

/// The kind that the byte `t` stands for, if it stands for one.
pub open spec fn entry_type_of(t: u8) -> Option<EntryType> {
    if t == 0 {
        Some(EntryType::Empty)
    } else if t == 1 {
        Some(EntryType::UserStorage)
    } else if t == 2 {
        Some(EntryType::UserStream)
    } else if t == 3 {
        Some(EntryType::LockBytes)
    } else if t == 4 {
        Some(EntryType::Property)
    } else if t == 5 {
        Some(EntryType::RootStorage)
    } else {
        None
    }
}

impl EntryType {
    /// Decodes the kind byte of a record: 0 to 5 are the six kinds in the
    /// order of their declaration, any other value is `InvalidFormat`.
    pub fn from(t: u8) -> (r: Result<EntryType, Error>)
        ensures
            match r {
                Ok(kind) => entry_type_of(t) == Some(kind),
                Err(e) => entry_type_of(t) is None && e == Error::InvalidFormat,
            },
    {
        match t {
            0 => Ok(EntryType::Empty),
            1 => Ok(EntryType::UserStorage),
            2 => Ok(EntryType::UserStream),
            3 => Ok(EntryType::LockBytes),
            4 => Ok(EntryType::Property),
            5 => Ok(EntryType::RootStorage),
            _ => Err(Error::InvalidFormat),
        }
    }

    /// Whether an entry of this kind holds other entries.
    pub open spec fn is_storage(self) -> bool {
        self == EntryType::RootStorage || self == EntryType::UserStorage
    }

    /// The name of the kind.
    pub fn label(&self) -> (text: &'static str)
        ensures
            text@ == (match *self {
                EntryType::Empty => "Empty"@,
                EntryType::UserStorage => "User storage"@,
                EntryType::UserStream => "User stream"@,
                EntryType::LockBytes => "?? Lock bytes ??"@,
                EntryType::Property => "?? Property ??"@,
                EntryType::RootStorage => "Root storage"@,
            }),
    {
        match *self {
            EntryType::Empty => "Empty",
            EntryType::UserStorage => "User storage",
            EntryType::UserStream => "User stream",
            EntryType::LockBytes => "?? Lock bytes ??",
            EntryType::Property => "?? Property ??",
            EntryType::RootStorage => "Root storage",
        }
    }
}

/// The text that a sequence of UTF-16 code units stands for, as
/// `String::from_utf16_lossy` decodes it.
pub uninterp spec fn utf16_lossy(units: Seq<u16>) -> Seq<char>;

/// Whether `unit` is one half of a surrogate pair: a code unit that does
/// not stand for a character by itself.
pub open spec fn is_surrogate(unit: u16) -> bool {
    0xD800 <= unit <= 0xDFFF
}

/// Whether none of `units` is a surrogate.
pub open spec fn has_no_surrogate(units: Seq<u16>) -> bool {
    forall|i: int| 0 <= i < units.len() ==> !is_surrogate(#[trigger] units[i])
}

/// Whether `text` is `units` read one for one: as many characters as code
/// units, each with the code of its unit.
pub open spec fn reads_one_for_one(text: Seq<char>, units: Seq<u16>) -> bool {
    &&& text.len() == units.len()
    &&& forall|i: int| 0 <= i < units.len() ==> (#[trigger] text[i]) as u32 == units[i] as u32
}

/// Whether units without a surrogate decode one for one. This is known of
/// the units that were decoded.
pub open spec fn decodes_plainly(units: Seq<u16>) -> bool {
    has_no_surrogate(units) ==> reads_one_for_one(utf16_lossy(units), units)
}

/// Decodes UTF-16 code units with `String::from_utf16_lossy` of the
/// standard library. The result is named: it is the text that the
/// standard library gives for these units, with U+FFFD in place of each
/// unpaired surrogate. One thing more is claimed of it, which is what
/// UTF-16 means for code units outside the surrogate range: where none of
/// the units is a surrogate, the text has one character for each unit, and
/// its code is the unit.
#[verifier::external_body]
fn decode_utf16(units: &Vec<u16>) -> (text: String)
    ensures
        text@ == utf16_lossy(units@),
        has_no_surrogate(units@) ==> reads_one_for_one(text@, units@),
{
    String::from_utf16_lossy(units)
}

/// The 32 code units of the name field of a record.
pub open spec fn name_field(record: Seq<u8>) -> Seq<u16> {
    Seq::new(32, |k: int| le_u16(record, 2 * k) as u16)
}

/// The position from `from` on of the first null code unit of `units`, or
/// their number where there is none.
pub open spec fn null_position(units: Seq<u16>, from: int) -> int
    decreases units.len() - from,
{
    if from < 0 || from >= units.len() {
        units.len() as int
    } else if units[from] == 0 {
        from
    } else {
        null_position(units, from + 1)
    }
}

/// The code units of the name of a record: those before the first null.
pub open spec fn name_units(record: Seq<u8>) -> Seq<u16> {
    name_field(record).take(null_position(name_field(record), 0))
}

/// The size field of a record: 64 bits wide in containers with sectors of
/// 4096 bytes, else 32 bits.
pub open spec fn record_size(record: Seq<u8>, wide: bool) -> int {
    if wide {
        le_u64(record, 120)
    } else {
        le_u32(record, 120)
    }
}

/// The first fault of a record, if there is one: too short, a kind byte
/// above 5, a colour byte above 1, a size that the machine cannot address.
pub open spec fn record_fault(record: Seq<u8>, wide: bool) -> Option<Error> {
    if record.len() < DIRECTORY_ENTRY_SIZE {
        Some(Error::BadSizeValue("Directory entry is too short"))
    } else if entry_type_of(record[66]) is None {
        Some(Error::InvalidFormat)
    } else if colour_of(record[67]) is None {
        Some(Error::InvalidFormat)
    } else if record_size(record, wide) > usize::MAX {
        Some(Error::BadSizeValue("Stream size is too large"))
    } else {
        None
    }
}

/// A record whose kind byte is above 5 or whose colour byte is above 1 is
/// `InvalidFormat`: no kind and no colour is taken in their place.
pub proof fn lemma_unknown_kind_or_colour_is_invalid(record: Seq<u8>, wide: bool)
    requires
        record.len() >= DIRECTORY_ENTRY_SIZE,
        record[66] > 5 || record[67] > 1,
    ensures
        record_fault(record, wide) == Some(Error::InvalidFormat),
{
}

/// A directory entry as a mathematical value.
pub ghost struct EntryView {
    /// Position of the record in the directory.
    pub id: u32,
    /// Name of the entry.
    pub name: Seq<char>,
    /// Kind of the entry.
    pub entry_type: EntryType,
    /// Colour of the entry in the tree of its siblings.
    pub color: NodeColour,
    /// Id of the left sibling.
    pub left_child_node: u32,
    /// Id of the right sibling.
    pub right_child_node: u32,
    /// Id of the root of the tree of the entry's own children.
    pub root_node: u32,
    /// Class identifier.
    pub identifier: Seq<u8>,
    /// Flags.
    pub flags: u32,
    /// Creation time.
    pub creation_time: u64,
    /// Last modification time.
    pub last_modification_time: u64,
    /// First sector of the stream, as the record gives it.
    pub start_sector: u32,
    /// The sectors of the stream, in order. Empty until the chain is resolved.
    pub sec_id_chain: Seq<u32>,
    /// Size of the stream in bytes.
    pub size: usize,
    /// Ids of the entries held by this one.
    pub children_nodes: Seq<u32>,
    /// Id of the entry that holds this one.
    pub parent_node: Option<u32>,
}

/// The entry that a record without fault stands for, before its chain is
/// resolved and its place in the hierarchy is known.
pub open spec fn parsed_record(record: Seq<u8>, dir_id: u32, wide: bool) -> EntryView {
    EntryView {
        id: dir_id,
        name: utf16_lossy(name_units(record)),
        entry_type: entry_type_of(record[66]).unwrap(),
        color: colour_of(record[67]).unwrap(),
        left_child_node: le_u32(record, 68) as u32,
        right_child_node: le_u32(record, 72) as u32,
        root_node: le_u32(record, 76) as u32,
        identifier: record.subrange(80, 96),
        flags: le_u32(record, 96) as u32,
        creation_time: le_u64(record, 100) as u64,
        last_modification_time: le_u64(record, 108) as u64,
        start_sector: le_u32(record, 116) as u32,
        sec_id_chain: Seq::empty(),
        size: record_size(record, wide) as usize,
        children_nodes: Seq::empty(),
        parent_node: None,
    }
}

/// An entry in an OLE file: a stream, which is a file, or a storage, which
/// is a folder.
#[derive(Debug)]
pub struct Entry {
    /// ID of the entry.
    id: u32,
    /// Name of the stream or the storage.
    name: String,
    /// Type of the entry.
    entry_type: EntryType,
    /// Color of the entry.
    color: NodeColour,
    /// ID of the left child entry.
    left_child_node: u32,
    /// ID of the right child entry.
    right_child_node: u32,
    /// ID of the root node.
    root_node: u32,
    /// UID of the entry.
    identifier: [u8; 16],
    /// Flags of the entry.
    flags: u32,
    /// Creation time.
    creation_time: u64,
    /// Last modification time.
    last_modification_time: u64,
    /// First sector of the stream.
    start_sector: u32,
    /// Chain of secID which hold the stream.
    sec_id_chain: Vec<u32>,
    /// Size of the entry.
    size: usize,
    /// Array of the children's DirIDs.
    children_nodes: Vec<u32>,
    /// DirID of the parent.
    parent_node: Option<u32>,
}

impl View for Entry {
    type V = EntryView;

    closed spec fn view(&self) -> EntryView {
        EntryView {
            id: self.id,
            name: self.name@,
            entry_type: self.entry_type,
            color: self.color,
            left_child_node: self.left_child_node,
            right_child_node: self.right_child_node,
            root_node: self.root_node,
            identifier: self.identifier@,
            flags: self.flags,
            creation_time: self.creation_time,
            last_modification_time: self.last_modification_time,
            start_sector: self.start_sector,
            sec_id_chain: self.sec_id_chain@,
            size: self.size,
            children_nodes: self.children_nodes@,
            parent_node: self.parent_node,
        }
    }
}

/// The position of the first null code unit is not behind one that was not yet met.
proof fn lemma_null_position_from(units: Seq<u16>, from: int)
    requires
        0 <= from <= units.len(),
        forall|i: int| 0 <= i < from ==> #[trigger] units[i] != 0,
    ensures
        null_position(units, 0) == null_position(units, from),
    decreases from,
{
    if from > 0 {
        lemma_null_position_from(units, from - 1);
    }
}

impl Entry {
    /// Decodes the record `record` of the directory as the entry `dir_id`.
    /// `wide` says whether the size field is 64 bits wide.
    ///
    /// Fails with `InvalidFormat` for a kind byte above 5 or a colour byte
    /// above 1, and with `BadSizeValue` for a record of less than 128 bytes
    /// or a size that does not fit the machine's addresses. A name without
    /// surrogates is decoded one character for each code unit.
    pub fn from_slice(record: &[u8], dir_id: u32, wide: bool) -> (r: Result<Entry, Error>)
        ensures
            match r {
                Ok(entry) => record_fault(record@, wide) is None && entry@ == parsed_record(
                    record@,
                    dir_id,
                    wide,
                ) && decodes_plainly(name_units(record@)),
                Err(e) => record_fault(record@, wide) == Some(e),
            },
    {
        if record.len() < DIRECTORY_ENTRY_SIZE {
            return Err(Error::BadSizeValue("Directory entry is too short"));
        }
        let entry_type = match EntryType::from(record[66]) {
            Ok(kind) => kind,
            Err(e) => {
                return Err(e);
            },
        };
        let color = match NodeColour::from(record[67]) {
            Ok(colour) => colour,
            Err(e) => {
                return Err(e);
            },
        };
        let size: usize = if wide {
            let declared = read_u64(record, 120);
            if declared > usize::MAX as u64 {
                return Err(Error::BadSizeValue("Stream size is too large"));
            }
            declared as usize
        } else {
            read_u32(record, 120) as usize
        };
        let identifier: [u8; 16] = [
            record[80],
            record[81],
            record[82],
            record[83],
            record[84],
            record[85],
            record[86],
            record[87],
            record[88],
            record[89],
            record[90],
            record[91],
            record[92],
            record[93],
            record[94],
            record[95],
        ];
        assert(identifier@ =~= record@.subrange(80, 96));
        let entry = Entry {
            id: dir_id,
            name: Entry::build_name(record),
            entry_type,
            color,
            left_child_node: read_u32(record, 68),
            right_child_node: read_u32(record, 72),
            root_node: read_u32(record, 76),
            identifier,
            flags: read_u32(record, 96),
            creation_time: read_u64(record, 100),
            last_modification_time: read_u64(record, 108),
            start_sector: read_u32(record, 116),
            sec_id_chain: Vec::new(),
            size,
            children_nodes: Vec::new(),
            parent_node: None,
        };
        Ok(entry)
    }

    /// Decodes the name at the start of `array`: the UTF-16 code units
    /// before the first null one, at most 32 of them.
    pub(crate) fn build_name(array: &[u8]) -> (name: String)
        requires
            array.len() >= 64,
        ensures
            name@ == utf16_lossy(name_units(array@)),
            decodes_plainly(name_units(array@)),
    {
        let mut units: Vec<u16> = Vec::new();
        let ghost field = name_field(array@);
        let mut i: usize = 0;
        while i < 32
            invariant
                0 <= i <= 32,
                array.len() >= 64,
                field == name_field(array@),
                units@ == field.take(i as int),
                forall|k: int| 0 <= k < i ==> #[trigger] field[k] != 0,
            ensures
                i < 32 ==> field[i as int] == 0,
            decreases 32 - i,
        {
            let unit = read_u16(array, 2 * i);
            if unit == 0 {
                break ;
            }
            units.push(unit);
            i = i + 1;
        }
        proof {
            lemma_null_position_from(field, i as int);
        }
        decode_utf16(&units)
    }

    /// Returns the first sector of the stream, as the record gives it.
    pub fn start_sector(&self) -> (r: u32)
        ensures
            r == self@.start_sector,
    {
        self.start_sector
    }

    /// Returns the `DirID` of the root of the tree of the entry's own children.
    pub fn root_node(&self) -> (r: u32)
        ensures
            r == self@.root_node,
    {
        self.root_node
    }

    /// Returns the sectors of the stream, in order.
    pub fn sec_id_chain(&self) -> (r: &Vec<u32>)
        ensures
            r@ == self@.sec_id_chain,
    {
        &self.sec_id_chain
    }

    /// Gives the entry the chain `chain`.
    pub(crate) fn set_chain(&mut self, chain: Vec<u32>)
        ensures
            final(self)@ == (EntryView { sec_id_chain: chain@, ..old(self)@ }),
    {
        self.sec_id_chain = chain;
    }

    /// Records `parent` as the entry that holds this one.
    pub(crate) fn set_parent(&mut self, parent: Option<u32>)
        ensures
            final(self)@ == (EntryView { parent_node: parent, ..old(self)@ }),
    {
        self.parent_node = parent;
    }

    /// Records `id` as an entry that this one holds.
    pub(crate) fn add_child(&mut self, id: u32)
        ensures
            final(self)@ == (EntryView {
                children_nodes: old(self)@.children_nodes.push(id),
                ..old(self)@
            }),
    {
        self.children_nodes.push(id);
    }

    /// Returns the ID of the entry.
    pub fn id(&self) -> (r: u32)
        ensures
            r == self@.id,
    {
        self.id
    }

    /// Returns the creation time of the entry (could be 0).
    pub fn creation_time(&self) -> (r: u64)
        ensures
            r == self@.creation_time,
    {
        self.creation_time
    }

    /// Returns the last modification time of the entry (could be 0).
    pub fn last_modification_time(&self) -> (r: u64)
        ensures
            r == self@.last_modification_time,
    {
        self.last_modification_time
    }

    /// Returns the name of the entry.
    pub fn name(&self) -> (r: &str)
        ensures
            r@ == self@.name,
    {
        self.name.as_str()
    }

    /// Returns the colour of the entry in the tree of its siblings.
    pub fn color(&self) -> (r: NodeColour)
        ensures
            r == self@.color,
    {
        self.color
    }

    /// Returns the class identifier of the entry.
    pub fn identifier(&self) -> (r: &[u8; 16])
        ensures
            r@ == self@.identifier,
    {
        &self.identifier
    }

    /// Returns the flags of the entry.
    pub fn flags(&self) -> (r: u32)
        ensures
            r == self@.flags,
    {
        self.flags
    }

    /// Returns the type of the entry.
    pub fn _type(&self) -> (r: EntryType)
        ensures
            r == self@.entry_type,
    {
        self.entry_type
    }

    /// Returns the size of the entry.
    pub fn len(&self) -> (r: usize)
        ensures
            r == self@.size,
    {
        self.size
    }

    /// Returns whether the size of the entry is zero.
    pub fn is_empty(&self) -> (r: bool)
        ensures
            r == (self@.size == 0),
    {
        self.size == 0
    }

    /// Returns the `DirID` of the left child node.
    pub fn left_child_node(&self) -> (r: u32)
        ensures
            r == self@.left_child_node,
    {
        self.left_child_node
    }

    /// Returns the `DirID` of the right child node.
    pub fn right_child_node(&self) -> (r: u32)
        ensures
            r == self@.right_child_node,
    {
        self.right_child_node
    }

    /// Returns the `DirID` of the parent, if exists.
    pub fn parent_node(&self) -> (r: Option<u32>)
        ensures
            r == self@.parent_node,
    {
        self.parent_node
    }

    /// Returns the `DirID`s of the children, if exists.
    pub fn children_nodes(&self) -> (r: &Vec<u32>)
        ensures
            r@ == self@.children_nodes,
    {
        &self.children_nodes
    }
}

} // verus!
