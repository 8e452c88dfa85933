use vstd::prelude::*;

verus! {

/// One of the four canonical DNA bases.
#[derive(Debug, Clone, Copy, PartialEq, Eq, Structural, Hash)]
pub enum DnaBase {
    A,
    C,
    G,
    T,
}

/// The character that names a base.
pub open spec fn base_char(b: DnaBase) -> char {
    match b {
        DnaBase::A => 'A',
        DnaBase::C => 'C',
        DnaBase::G => 'G',
        DnaBase::T => 'T',
    }
}

/// The base that a character names, upper or lower case.
pub open spec fn base_of_char(c: char) -> Option<DnaBase> {
    if c == 'A' || c == 'a' {
        Some(DnaBase::A)
    } else if c == 'C' || c == 'c' {
        Some(DnaBase::C)
    } else if c == 'G' || c == 'g' {
        Some(DnaBase::G)
    } else if c == 'T' || c == 't' {
        Some(DnaBase::T)
    } else {
        None
    }
}

/// Watson-Crick complement.
pub open spec fn base_complement(b: DnaBase) -> DnaBase {
    match b {
        DnaBase::A => DnaBase::T,
        DnaBase::C => DnaBase::G,
        DnaBase::G => DnaBase::C,
        DnaBase::T => DnaBase::A,
    }
}

impl DnaBase {
    pub fn parse(c: char) -> (r: Option<DnaBase>)
        ensures
            r == base_of_char(c),
    {
        match c {
            'A' | 'a' => Some(DnaBase::A),
            'C' | 'c' => Some(DnaBase::C),
            'G' | 'g' => Some(DnaBase::G),
            'T' | 't' => Some(DnaBase::T),
            _ => None,
        }
    }

    pub fn char(&self) -> (r: char)
        ensures
            r == base_char(*self),
    {
        match self {
            DnaBase::A => 'A',
            DnaBase::C => 'C',
            DnaBase::G => 'G',
            DnaBase::T => 'T',
        }
    }

    pub fn complement(&self) -> (r: DnaBase)
        ensures
            r == base_complement(*self),
    {
        match self {
            DnaBase::A => DnaBase::T,
            DnaBase::C => DnaBase::G,
            DnaBase::G => DnaBase::C,
            DnaBase::T => DnaBase::A,
        }
    }

    /// The code that stands for this base when no modification is called.
    pub fn canonical_mod_code(&self) -> (r: ModCode)
        ensures
            r == canonical_code_of(*self),
            r.is_canonical_spec(),
    {
        match self {
            DnaBase::A => ModCode::A,
            DnaBase::C => ModCode::C,
            DnaBase::G => ModCode::G,
            DnaBase::T => ModCode::T,
        }
    }
}

/// A modification code as it appears in the input: a single character or a
/// numeric (ChEBI) identifier.
#[derive(Debug, Clone, Copy, PartialEq, Eq, Structural, Hash)]
pub enum ModCodeRepr {
    Code(char),
    ChEBI(u32),
}

/// The key by which codes are ordered: characters first, by value, then
/// numeric codes, by value.
pub open spec fn code_key(c: ModCodeRepr) -> int {
    match c {
        ModCodeRepr::Code(ch) => ch as int,
        ModCodeRepr::ChEBI(n) => 0x110000 + n as int,
    }
}

pub proof fn lemma_code_key_injective(a: ModCodeRepr, b: ModCodeRepr)
    ensures
        code_key(a) == code_key(b) ==> a == b,
{
    if code_key(a) == code_key(b) {
        match a {
            ModCodeRepr::Code(x) => match b {
                ModCodeRepr::Code(y) => {
                    assert(x as u32 == y as u32);
                },
                ModCodeRepr::ChEBI(_) => {},
            },
            ModCodeRepr::ChEBI(_) => {},
        }
    }
}

impl ModCodeRepr {
    /// Whether `self` sorts strictly before `other`.
    pub fn precedes(&self, other: &ModCodeRepr) -> (r: bool)
        ensures
            r == (code_key(*self) < code_key(*other)),
    {
        match (self, other) {
            (ModCodeRepr::Code(a), ModCodeRepr::Code(b)) => (*a as u32) < (*b as u32),
            (ModCodeRepr::Code(_), ModCodeRepr::ChEBI(_)) => true,
            (ModCodeRepr::ChEBI(_), ModCodeRepr::Code(_)) => false,
            (ModCodeRepr::ChEBI(a), ModCodeRepr::ChEBI(b)) => *a < *b,
        }
    }
}

/// The fixed alphabet of codes that the pileup counts: the four canonical
/// bases and the modifications 6mA (`a`), 5hmC (`h`) and 5mC (`m`).
#[allow(non_camel_case_types)]
#[derive(Debug, Clone, Copy, PartialEq, Eq, Structural, Hash)]
pub enum ModCode {
    A,
    C,
    G,
    T,
    a,
    h,
    m,
}

pub open spec fn canonical_code_of(b: DnaBase) -> ModCode {
    match b {
        DnaBase::A => ModCode::A,
        DnaBase::C => ModCode::C,
        DnaBase::G => ModCode::G,
        DnaBase::T => ModCode::T,
    }
}

pub open spec fn mod_code_char(c: ModCode) -> char {
    match c {
        ModCode::A => 'A',
        ModCode::C => 'C',
        ModCode::G => 'G',
        ModCode::T => 'T',
        ModCode::a => 'a',
        ModCode::h => 'h',
        ModCode::m => 'm',
    }
}

/// The code of the fixed alphabet that a raw code names, if any.
pub open spec fn mod_code_of_repr(r: ModCodeRepr) -> Option<ModCode> {
    match r {
        ModCodeRepr::Code(c) => if c == 'A' {
            Some(ModCode::A)
        } else if c == 'C' {
            Some(ModCode::C)
        } else if c == 'G' {
            Some(ModCode::G)
        } else if c == 'T' {
            Some(ModCode::T)
        } else if c == 'a' {
            Some(ModCode::a)
        } else if c == 'h' {
            Some(ModCode::h)
        } else if c == 'm' {
            Some(ModCode::m)
        } else {
            None
        },
        ModCodeRepr::ChEBI(n) => if n == 28871 {
            Some(ModCode::a)
        } else if n == 76792 {
            Some(ModCode::h)
        } else if n == 27551 {
            Some(ModCode::m)
        } else {
            None
        },
    }
}

impl ModCode {
    pub open spec fn is_canonical_spec(&self) -> bool {
        match self {
            ModCode::A | ModCode::C | ModCode::G | ModCode::T => true,
            _ => false,
        }
    }

    pub fn is_canonical(&self) -> (r: bool)
        ensures
            r == self.is_canonical_spec(),
    {
        match self {
            ModCode::A | ModCode::C | ModCode::G | ModCode::T => true,
            _ => false,
        }
    }

    pub fn char(&self) -> (r: char)
        ensures
            r == mod_code_char(*self),
    {
        match self {
            ModCode::A => 'A',
            ModCode::C => 'C',
            ModCode::G => 'G',
            ModCode::T => 'T',
            ModCode::a => 'a',
            ModCode::h => 'h',
            ModCode::m => 'm',
        }
    }

    pub fn parse_raw_mod_code(raw: ModCodeRepr) -> (r: Option<ModCode>)
        ensures
            r == mod_code_of_repr(raw),
    {
        match raw {
            ModCodeRepr::Code(c) => match c {
                'A' => Some(ModCode::A),
                'C' => Some(ModCode::C),
                'G' => Some(ModCode::G),
                'T' => Some(ModCode::T),
                'a' => Some(ModCode::a),
                'h' => Some(ModCode::h),
                'm' => Some(ModCode::m),
                _ => None,
            },
            ModCodeRepr::ChEBI(n) => if n == 28871 {
                Some(ModCode::a)
            } else if n == 76792 {
                Some(ModCode::h)
            } else if n == 27551 {
                Some(ModCode::m)
            } else {
                None
            },
        }
    }
}

} // verus!
