use vstd::prelude::*;

verus! {

/// Whether a record stands for a whole markdown file or one section of it.
#[derive(Debug, Clone, Copy, PartialEq, Eq, Structural)]
pub enum UnitType {
    MdFile,
    Section,
}

/// Which collection a record belongs to.
#[derive(Debug, Clone, Copy, PartialEq, Eq, Structural)]
pub enum RecordType {
    Command,
    Track,
    Writeup,
}

impl UnitType {
    /// The short label shown in tables.
    pub open spec fn spec_label(self) -> Seq<char> {
        match self {
            UnitType::MdFile => seq!['M', 'D'],
            UnitType::Section => seq!['S'],
        }
    }

    /// The short label shown in tables: `MD` or `S`.
    pub fn label(&self) -> (s: String)
        ensures
            s@ == self.spec_label(),
    {
        let mut s = String::new();
        match self {
            UnitType::MdFile => {
                crate::text::push_char(&mut s, 'M');
                crate::text::push_char(&mut s, 'D');
            },
            UnitType::Section => {
                crate::text::push_char(&mut s, 'S');
            },
        }
        assert(s@ =~= self.spec_label());
        s
    }
}

impl RecordType {
    /// The short label shown in tables.
    pub open spec fn spec_label(self) -> Seq<char> {
        match self {
            RecordType::Command => seq!['c', 'm', 'd'],
            RecordType::Track => seq!['t', 'r', 'k'],
            RecordType::Writeup => seq!['w', 'u'],
        }
    }

    /// The short label shown in tables: `cmd`, `trk` or `wu`.
    pub fn label(&self) -> (s: String)
        ensures
            s@ == self.spec_label(),
    {
        let mut s = String::new();
        match self {
            RecordType::Command => {
                crate::text::push_char(&mut s, 'c');
                crate::text::push_char(&mut s, 'm');
                crate::text::push_char(&mut s, 'd');
            },
            RecordType::Track => {
                crate::text::push_char(&mut s, 't');
                crate::text::push_char(&mut s, 'r');
                crate::text::push_char(&mut s, 'k');
            },
            RecordType::Writeup => {
                crate::text::push_char(&mut s, 'w');
                crate::text::push_char(&mut s, 'u');
            },
        }
        assert(s@ =~= self.spec_label());
        s
    }
}

} // verus!
