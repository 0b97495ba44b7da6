//! The closed set of field names.

use vstd::prelude::*;
use vstd::string::*;
use vstd::utf8::*;

verus! {

/// Number of field names.
pub const FIELD_COUNT: usize = 23;

/// Name of a field of a package description, in declaration order.
#[derive(Debug, Clone, Copy, PartialEq, Eq, Structural, PartialOrd, Ord, Hash)]
pub enum FieldName {
    FileName,
    Name,
    Base,
    Version,
    Description,
    Groups,
    CompressedSize,
    InstalledSize,
    Md5Sum,
    Sha256Sum,
    PgpSignature,
    Url,
    License,
    Arch,
    BuildDate,
    Packager,
    Depends,
    CheckDepends,
    MakeDepends,
    OptDepends,
    Provides,
    Conflicts,
    Replaces,
}

impl FieldName {
    /// Position of the name in declaration order.
    pub open spec fn spec_ordinal(self) -> nat {
        match self {
            FieldName::FileName => 0,
            FieldName::Name => 1,
            FieldName::Base => 2,
            FieldName::Version => 3,
            FieldName::Description => 4,
            FieldName::Groups => 5,
            FieldName::CompressedSize => 6,
            FieldName::InstalledSize => 7,
            FieldName::Md5Sum => 8,
            FieldName::Sha256Sum => 9,
            FieldName::PgpSignature => 10,
            FieldName::Url => 11,
            FieldName::License => 12,
            FieldName::Arch => 13,
            FieldName::BuildDate => 14,
            FieldName::Packager => 15,
            FieldName::Depends => 16,
            FieldName::CheckDepends => 17,
            FieldName::MakeDepends => 18,
            FieldName::OptDepends => 19,
            FieldName::Provides => 20,
            FieldName::Conflicts => 21,
            FieldName::Replaces => 22,
        }
    }

    /// The line that opens the field's block.
    pub open spec fn spec_delimiter(self) -> &'static str {
        match self {
            FieldName::FileName => "%FILENAME%",
            FieldName::Name => "%NAME%",
            FieldName::Base => "%BASE%",
            FieldName::Version => "%VERSION%",
            FieldName::Description => "%DESC%",
            FieldName::Groups => "%GROUPS%",
            FieldName::CompressedSize => "%CSIZE%",
            FieldName::InstalledSize => "%ISIZE%",
            FieldName::Md5Sum => "%MD5SUM%",
            FieldName::Sha256Sum => "%SHA256SUM%",
            FieldName::PgpSignature => "%PGPSIG%",
            FieldName::Url => "%URL%",
            FieldName::License => "%LICENSE%",
            FieldName::Arch => "%ARCH%",
            FieldName::BuildDate => "%BUILDDATE%",
            FieldName::Packager => "%PACKAGER%",
            FieldName::Depends => "%DEPENDS%",
            FieldName::CheckDepends => "%CHECKDEPENDS%",
            FieldName::MakeDepends => "%MAKEDEPENDS%",
            FieldName::OptDepends => "%OPTDEPENDS%",
            FieldName::Provides => "%PROVIDES%",
            FieldName::Conflicts => "%CONFLICTS%",
            FieldName::Replaces => "%REPLACES%",
        }
    }

    /// Position of the name in declaration order, below [`FIELD_COUNT`].
    pub fn ordinal(self) -> (index: usize)
        ensures
            index == self.spec_ordinal(),
            index < FIELD_COUNT,
    {
        match self {
            FieldName::FileName => 0,
            FieldName::Name => 1,
            FieldName::Base => 2,
            FieldName::Version => 3,
            FieldName::Description => 4,
            FieldName::Groups => 5,
            FieldName::CompressedSize => 6,
            FieldName::InstalledSize => 7,
            FieldName::Md5Sum => 8,
            FieldName::Sha256Sum => 9,
            FieldName::PgpSignature => 10,
            FieldName::Url => 11,
            FieldName::License => 12,
            FieldName::Arch => 13,
            FieldName::BuildDate => 14,
            FieldName::Packager => 15,
            FieldName::Depends => 16,
            FieldName::CheckDepends => 17,
            FieldName::MakeDepends => 18,
            FieldName::OptDepends => 19,
            FieldName::Provides => 20,
            FieldName::Conflicts => 21,
            FieldName::Replaces => 22,
        }
    }

    /// The name at a position in declaration order, if there is one.
    pub fn from_ordinal(index: usize) -> (name: Option<FieldName>)
        ensures
            match name {
                Some(field) => field.spec_ordinal() == index,
                None => index >= FIELD_COUNT,
            },
    {
        match index {
            0 => Some(FieldName::FileName),
            1 => Some(FieldName::Name),
            2 => Some(FieldName::Base),
            3 => Some(FieldName::Version),
            4 => Some(FieldName::Description),
            5 => Some(FieldName::Groups),
            6 => Some(FieldName::CompressedSize),
            7 => Some(FieldName::InstalledSize),
            8 => Some(FieldName::Md5Sum),
            9 => Some(FieldName::Sha256Sum),
            10 => Some(FieldName::PgpSignature),
            11 => Some(FieldName::Url),
            12 => Some(FieldName::License),
            13 => Some(FieldName::Arch),
            14 => Some(FieldName::BuildDate),
            15 => Some(FieldName::Packager),
            16 => Some(FieldName::Depends),
            17 => Some(FieldName::CheckDepends),
            18 => Some(FieldName::MakeDepends),
            19 => Some(FieldName::OptDepends),
            20 => Some(FieldName::Provides),
            21 => Some(FieldName::Conflicts),
            22 => Some(FieldName::Replaces),
            _ => None,
        }
    }

    /// The line that opens the field's block, such as `%NAME%`.
    #[verifier::when_used_as_spec(spec_delimiter)]
    pub fn delimiter(self) -> (line: &'static str)
        ensures
            line == self.spec_delimiter(),
    {
        match self {
            FieldName::FileName => "%FILENAME%",
            FieldName::Name => "%NAME%",
            FieldName::Base => "%BASE%",
            FieldName::Version => "%VERSION%",
            FieldName::Description => "%DESC%",
            FieldName::Groups => "%GROUPS%",
            FieldName::CompressedSize => "%CSIZE%",
            FieldName::InstalledSize => "%ISIZE%",
            FieldName::Md5Sum => "%MD5SUM%",
            FieldName::Sha256Sum => "%SHA256SUM%",
            FieldName::PgpSignature => "%PGPSIG%",
            FieldName::Url => "%URL%",
            FieldName::License => "%LICENSE%",
            FieldName::Arch => "%ARCH%",
            FieldName::BuildDate => "%BUILDDATE%",
            FieldName::Packager => "%PACKAGER%",
            FieldName::Depends => "%DEPENDS%",
            FieldName::CheckDepends => "%CHECKDEPENDS%",
            FieldName::MakeDepends => "%MAKEDEPENDS%",
            FieldName::OptDepends => "%OPTDEPENDS%",
            FieldName::Provides => "%PROVIDES%",
            FieldName::Conflicts => "%CONFLICTS%",
            FieldName::Replaces => "%REPLACES%",
        }
    }
}

/// Two names at one position in declaration order are one name.
pub proof fn lemma_ordinal_is_injective(a: FieldName, b: FieldName)
    requires
        a.spec_ordinal() == b.spec_ordinal(),
    ensures
        a == b,
{
}

/// The length and two characters of a delimiter line, by which it is told
/// from the others.
spec fn marks(line: Seq<char>) -> (nat, char, char) {
    (line.len(), line[1], line[2])
}

/// No delimiter line is blank, and no two fields share one.
pub proof fn lemma_delimiters(a: FieldName, b: FieldName)
    ensures
        a.spec_delimiter().spec_bytes().len() > 0,
        a.spec_delimiter().spec_bytes() == b.spec_delimiter().spec_bytes() ==> a == b,
{
    reveal_strlit("%FILENAME%");
    reveal_strlit("%NAME%");
    reveal_strlit("%BASE%");
    reveal_strlit("%VERSION%");
    reveal_strlit("%DESC%");
    reveal_strlit("%GROUPS%");
    reveal_strlit("%CSIZE%");
    reveal_strlit("%ISIZE%");
    reveal_strlit("%MD5SUM%");
    reveal_strlit("%SHA256SUM%");
    reveal_strlit("%PGPSIG%");
    reveal_strlit("%URL%");
    reveal_strlit("%LICENSE%");
    reveal_strlit("%ARCH%");
    reveal_strlit("%BUILDDATE%");
    reveal_strlit("%PACKAGER%");
    reveal_strlit("%DEPENDS%");
    reveal_strlit("%CHECKDEPENDS%");
    reveal_strlit("%MAKEDEPENDS%");
    reveal_strlit("%OPTDEPENDS%");
    reveal_strlit("%PROVIDES%");
    reveal_strlit("%CONFLICTS%");
    reveal_strlit("%REPLACES%");
    let line_a = a.spec_delimiter()@;
    let line_b = b.spec_delimiter()@;
    encode_utf8_decode_utf8(line_a);
    encode_utf8_decode_utf8(line_b);
    assert(line_a.len() >= 5);
    if a.spec_delimiter().spec_bytes() == b.spec_delimiter().spec_bytes() {
        assert(line_a == line_b);
        assert(marks(line_a) == marks(line_b));
    }
}

} // verus!
