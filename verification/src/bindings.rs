use vstd::prelude::*;

verus! {

/// An open database of the native installer library; only ever seen behind a pointer.
pub struct Database {
    _unused: [u8; 0],
}

/// A prepared query of the native installer library; only ever seen behind a pointer.
pub struct Query {
    _unused: [u8; 0],
}

/// A record (a row of fields) of the native installer library; only ever seen behind a pointer.
pub struct Record {
    _unused: [u8; 0],
}

/// The summary information stream of a database; only ever seen behind a pointer.
pub struct SummaryInfo {
    _unused: [u8; 0],
}

/// A result code of the native installer library.
#[derive(Debug, Copy, Clone, Hash, PartialEq, Eq, Structural)]
pub struct ResultError(pub u32);

impl ResultError {
    /// The value `SUCCESS` (0).
    pub fn success() -> (r: ResultError)
        ensures
            r.0 == 0,
    {
        ResultError(0)
    }

    /// The value `ACCESS_DENIED` (1).
    pub fn access_denied() -> (r: ResultError)
        ensures
            r.0 == 1,
    {
        ResultError(1)
    }

    /// The value `INVALID_HANDLE` (2).
    pub fn invalid_handle() -> (r: ResultError)
        ensures
            r.0 == 2,
    {
        ResultError(2)
    }

    /// The value `NOT_ENOUGH_MEMORY` (3).
    pub fn not_enough_memory() -> (r: ResultError)
        ensures
            r.0 == 3,
    {
        ResultError(3)
    }

    /// The value `INVALID_DATA` (4).
    pub fn invalid_data() -> (r: ResultError)
        ensures
            r.0 == 4,
    {
        ResultError(4)
    }

    /// The value `OUTOFMEMORY` (5).
    pub fn outofmemory() -> (r: ResultError)
        ensures
            r.0 == 5,
    {
        ResultError(5)
    }

    /// The value `INVALID_PARAMETER` (6).
    pub fn invalid_parameter() -> (r: ResultError)
        ensures
            r.0 == 6,
    {
        ResultError(6)
    }

    /// The value `OPEN_FAILED` (7).
    pub fn open_failed() -> (r: ResultError)
        ensures
            r.0 == 7,
    {
        ResultError(7)
    }

    /// The value `CALL_NOT_IMPLEMENTED` (8).
    pub fn call_not_implemented() -> (r: ResultError)
        ensures
            r.0 == 8,
    {
        ResultError(8)
    }

    /// The value `MORE_DATA` (9).
    pub fn more_data() -> (r: ResultError)
        ensures
            r.0 == 9,
    {
        ResultError(9)
    }

    /// The value `NOT_FOUND` (10).
    pub fn not_found() -> (r: ResultError)
        ensures
            r.0 == 10,
    {
        ResultError(10)
    }

    /// The value `CONTINUE` (11).
    pub fn continue_() -> (r: ResultError)
        ensures
            r.0 == 11,
    {
        ResultError(11)
    }

    /// The value `UNKNOWN_PROPERTY` (12).
    pub fn unknown_property() -> (r: ResultError)
        ensures
            r.0 == 12,
    {
        ResultError(12)
    }

    /// The value `BAD_QUERY_SYNTAX` (13).
    pub fn bad_query_syntax() -> (r: ResultError)
        ensures
            r.0 == 13,
    {
        ResultError(13)
    }

    /// The value `INVALID_FIELD` (14).
    pub fn invalid_field() -> (r: ResultError)
        ensures
            r.0 == 14,
    {
        ResultError(14)
    }

    /// The value `FUNCTION_FAILED` (15).
    pub fn function_failed() -> (r: ResultError)
        ensures
            r.0 == 15,
    {
        ResultError(15)
    }

    /// The value `INVALID_TABLE` (16).
    pub fn invalid_table() -> (r: ResultError)
        ensures
            r.0 == 16,
    {
        ResultError(16)
    }

    /// The value `DATATYPE_MISMATCH` (17).
    pub fn datatype_mismatch() -> (r: ResultError)
        ensures
            r.0 == 17,
    {
        ResultError(17)
    }

    /// The value `INVALID_DATATYPE` (18).
    pub fn invalid_datatype() -> (r: ResultError)
        ensures
            r.0 == 18,
    {
        ResultError(18)
    }
}

/// The type of a summary information property.
#[derive(Debug, Copy, Clone, Hash, PartialEq, Eq, Structural)]
pub struct PropertyType(pub u32);

impl PropertyType {
    /// The value `EMPTY` (0).
    pub fn empty() -> (r: PropertyType)
        ensures
            r.0 == 0,
    {
        PropertyType(0)
    }

    /// The value `INT` (1).
    pub fn int_() -> (r: PropertyType)
        ensures
            r.0 == 1,
    {
        PropertyType(1)
    }

    /// The value `STRING` (2).
    pub fn string() -> (r: PropertyType)
        ensures
            r.0 == 2,
    {
        PropertyType(2)
    }

    /// The value `FILETIME` (3).
    pub fn filetime() -> (r: PropertyType)
        ensures
            r.0 == 3,
    {
        PropertyType(3)
    }
}

/// Which column information a query reports: names or types.
#[derive(Debug, Copy, Clone, Hash, PartialEq, Eq, Structural)]
pub struct ColInfo(pub u32);

impl ColInfo {
    /// The value `NAMES` (0).
    pub fn names() -> (r: ColInfo)
        ensures
            r.0 == 0,
    {
        ColInfo(0)
    }

    /// The value `TYPES` (1).
    pub fn types() -> (r: ColInfo)
        ensures
            r.0 == 1,
    {
        ColInfo(1)
    }
}

/// Bit flags to open a database with.
#[derive(Debug, Copy, Clone, Hash, PartialEq, Eq, Structural)]
pub struct DbFlags(pub u32);

impl DbFlags {
    /// The value `READONLY` (1).
    pub fn readonly() -> (r: DbFlags)
        ensures
            r.0 == 1,
    {
        DbFlags(1)
    }

    /// The value `CREATE` (2).
    pub fn create() -> (r: DbFlags)
        ensures
            r.0 == 2,
    {
        DbFlags(2)
    }

    /// The value `TRANSACT` (4).
    pub fn transact() -> (r: DbFlags)
        ensures
            r.0 == 4,
    {
        DbFlags(4)
    }

    /// The value `PATCH` (8).
    pub fn patch() -> (r: DbFlags)
        ensures
            r.0 == 8,
    {
        DbFlags(8)
    }
}

/// A validation error code of the native installer library.
#[derive(Debug, Copy, Clone, Hash, PartialEq, Eq, Structural)]
pub struct DBError(pub u32);

impl DBError {
    /// The value `SUCCESS` (0).
    pub fn success() -> (r: DBError)
        ensures
            r.0 == 0,
    {
        DBError(0)
    }

    /// The value `INVALIDARG` (1).
    pub fn invalidarg() -> (r: DBError)
        ensures
            r.0 == 1,
    {
        DBError(1)
    }

    /// The value `MOREDATA` (2).
    pub fn moredata() -> (r: DBError)
        ensures
            r.0 == 2,
    {
        DBError(2)
    }

    /// The value `FUNCTIONERROR` (3).
    pub fn functionerror() -> (r: DBError)
        ensures
            r.0 == 3,
    {
        DBError(3)
    }

    /// The value `DUPLICATEKEY` (4).
    pub fn duplicatekey() -> (r: DBError)
        ensures
            r.0 == 4,
    {
        DBError(4)
    }

    /// The value `REQUIRED` (5).
    pub fn required() -> (r: DBError)
        ensures
            r.0 == 5,
    {
        DBError(5)
    }

    /// The value `BADLINK` (6).
    pub fn badlink() -> (r: DBError)
        ensures
            r.0 == 6,
    {
        DBError(6)
    }

    /// The value `OVERFLOW` (7).
    pub fn overflow() -> (r: DBError)
        ensures
            r.0 == 7,
    {
        DBError(7)
    }

    /// The value `UNDERFLOW` (8).
    pub fn underflow() -> (r: DBError)
        ensures
            r.0 == 8,
    {
        DBError(8)
    }

    /// The value `NOTINSET` (9).
    pub fn notinset() -> (r: DBError)
        ensures
            r.0 == 9,
    {
        DBError(9)
    }

    /// The value `BADVERSION` (10).
    pub fn badversion() -> (r: DBError)
        ensures
            r.0 == 10,
    {
        DBError(10)
    }

    /// The value `BADCASE` (11).
    pub fn badcase() -> (r: DBError)
        ensures
            r.0 == 11,
    {
        DBError(11)
    }

    /// The value `BADGUID` (12).
    pub fn badguid() -> (r: DBError)
        ensures
            r.0 == 12,
    {
        DBError(12)
    }

    /// The value `BADWILDCARD` (13).
    pub fn badwildcard() -> (r: DBError)
        ensures
            r.0 == 13,
    {
        DBError(13)
    }

    /// The value `BADIDENTIFIER` (14).
    pub fn badidentifier() -> (r: DBError)
        ensures
            r.0 == 14,
    {
        DBError(14)
    }

    /// The value `BADLANGUAGE` (15).
    pub fn badlanguage() -> (r: DBError)
        ensures
            r.0 == 15,
    {
        DBError(15)
    }

    /// The value `BADFILENAME` (16).
    pub fn badfilename() -> (r: DBError)
        ensures
            r.0 == 16,
    {
        DBError(16)
    }

    /// The value `BADPATH` (17).
    pub fn badpath() -> (r: DBError)
        ensures
            r.0 == 17,
    {
        DBError(17)
    }

    /// The value `BADCONDITION` (18).
    pub fn badcondition() -> (r: DBError)
        ensures
            r.0 == 18,
    {
        DBError(18)
    }

    /// The value `BADFORMATTED` (19).
    pub fn badformatted() -> (r: DBError)
        ensures
            r.0 == 19,
    {
        DBError(19)
    }

    /// The value `BADTEMPLATE` (20).
    pub fn badtemplate() -> (r: DBError)
        ensures
            r.0 == 20,
    {
        DBError(20)
    }

    /// The value `BADDEFAULTDIR` (21).
    pub fn baddefaultdir() -> (r: DBError)
        ensures
            r.0 == 21,
    {
        DBError(21)
    }

    /// The value `BADREGPATH` (22).
    pub fn badregpath() -> (r: DBError)
        ensures
            r.0 == 22,
    {
        DBError(22)
    }

    /// The value `BADCUSTOMSOURCE` (23).
    pub fn badcustomsource() -> (r: DBError)
        ensures
            r.0 == 23,
    {
        DBError(23)
    }

    /// The value `BADPROPERTY` (24).
    pub fn badproperty() -> (r: DBError)
        ensures
            r.0 == 24,
    {
        DBError(24)
    }

    /// The value `MISSINGDATA` (25).
    pub fn missingdata() -> (r: DBError)
        ensures
            r.0 == 25,
    {
        DBError(25)
    }

    /// The value `BADCATEGORY` (26).
    pub fn badcategory() -> (r: DBError)
        ensures
            r.0 == 26,
    {
        DBError(26)
    }

    /// The value `BADKEYTABLE` (27).
    pub fn badkeytable() -> (r: DBError)
        ensures
            r.0 == 27,
    {
        DBError(27)
    }

    /// The value `BADMAXMINVALUES` (28).
    pub fn badmaxminvalues() -> (r: DBError)
        ensures
            r.0 == 28,
    {
        DBError(28)
    }

    /// The value `BADCABINET` (29).
    pub fn badcabinet() -> (r: DBError)
        ensures
            r.0 == 29,
    {
        DBError(29)
    }

    /// The value `BADSHORTCUT` (30).
    pub fn badshortcut() -> (r: DBError)
        ensures
            r.0 == 30,
    {
        DBError(30)
    }

    /// The value `STRINGOVERFLOW` (31).
    pub fn stringoverflow() -> (r: DBError)
        ensures
            r.0 == 31,
    {
        DBError(31)
    }

    /// The value `BADLOCALIZEATTRIB` (32).
    pub fn badlocalizeattrib() -> (r: DBError)
        ensures
            r.0 == 32,
    {
        DBError(32)
    }
}

/// A property of the summary information stream.
#[derive(Debug, Copy, Clone, Hash, PartialEq, Eq, Structural)]
pub struct Property(pub u32);

impl Property {
    /// The value `DICTIONARY` (0).
    pub fn dictionary() -> (r: Property)
        ensures
            r.0 == 0,
    {
        Property(0)
    }

    /// The value `CODEPAGE` (1).
    pub fn codepage() -> (r: Property)
        ensures
            r.0 == 1,
    {
        Property(1)
    }

    /// The value `TITLE` (2).
    pub fn title() -> (r: Property)
        ensures
            r.0 == 2,
    {
        Property(2)
    }

    /// The value `SUBJECT` (3).
    pub fn subject() -> (r: Property)
        ensures
            r.0 == 3,
    {
        Property(3)
    }

    /// The value `AUTHOR` (4).
    pub fn author() -> (r: Property)
        ensures
            r.0 == 4,
    {
        Property(4)
    }

    /// The value `KEYWORDS` (5).
    pub fn keywords() -> (r: Property)
        ensures
            r.0 == 5,
    {
        Property(5)
    }

    /// The value `COMMENTS` (6).
    pub fn comments() -> (r: Property)
        ensures
            r.0 == 6,
    {
        Property(6)
    }

    /// The value `TEMPLATE` (7).
    pub fn template() -> (r: Property)
        ensures
            r.0 == 7,
    {
        Property(7)
    }

    /// The value `LASTAUTHOR` (8).
    pub fn lastauthor() -> (r: Property)
        ensures
            r.0 == 8,
    {
        Property(8)
    }

    /// The value `UUID` (9).
    pub fn uuid() -> (r: Property)
        ensures
            r.0 == 9,
    {
        Property(9)
    }

    /// The value `EDITTIME` (10).
    pub fn edittime() -> (r: Property)
        ensures
            r.0 == 10,
    {
        Property(10)
    }

    /// The value `LASTPRINTED` (11).
    pub fn lastprinted() -> (r: Property)
        ensures
            r.0 == 11,
    {
        Property(11)
    }

    /// The value `CREATED_TM` (12).
    pub fn created_tm() -> (r: Property)
        ensures
            r.0 == 12,
    {
        Property(12)
    }

    /// The value `LASTSAVED_TM` (13).
    pub fn lastsaved_tm() -> (r: Property)
        ensures
            r.0 == 13,
    {
        Property(13)
    }

    /// The value `VERSION` (14).
    pub fn version() -> (r: Property)
        ensures
            r.0 == 14,
    {
        Property(14)
    }

    /// The value `SOURCE` (15).
    pub fn source() -> (r: Property)
        ensures
            r.0 == 15,
    {
        Property(15)
    }

    /// The value `RESTRICT` (16).
    pub fn restrict() -> (r: Property)
        ensures
            r.0 == 16,
    {
        Property(16)
    }

    /// The value `THUMBNAIL` (17).
    pub fn thumbnail() -> (r: Property)
        ensures
            r.0 == 17,
    {
        Property(17)
    }

    /// The value `APPNAME` (18).
    pub fn appname() -> (r: Property)
        ensures
            r.0 == 18,
    {
        Property(18)
    }

    /// The value `SECURITY` (19).
    pub fn security() -> (r: Property)
        ensures
            r.0 == 19,
    {
        Property(19)
    }
}

/// The flags set in `a` or in `b`.
pub open spec fn flags_union(a: DbFlags, b: DbFlags) -> DbFlags {
    DbFlags(a.0 | b.0)
}

/// The flags set in both `a` and `b`.
pub open spec fn flags_common(a: DbFlags, b: DbFlags) -> DbFlags {
    DbFlags(a.0 & b.0)
}

impl core::ops::BitOr<DbFlags> for DbFlags {
    type Output = Self;

    fn bitor(self, other: Self) -> (r: Self) {
        DbFlags(self.0 | other.0)
    }
}

impl vstd::std_specs::ops::BitOrSpecImpl<DbFlags> for DbFlags {
    open spec fn obeys_bitor_spec() -> bool {
        true
    }

    open spec fn bitor_req(self, rhs: DbFlags) -> bool {
        true
    }

    open spec fn bitor_spec(self, rhs: DbFlags) -> DbFlags {
        flags_union(self, rhs)
    }
}

impl core::ops::BitOrAssign for DbFlags {
    fn bitor_assign(&mut self, rhs: DbFlags)
        ensures
            *final(self) == flags_union(*old(self), rhs),
    {
        self.0 = self.0 | rhs.0;
    }
}

impl core::ops::BitAnd<DbFlags> for DbFlags {
    type Output = Self;

    fn bitand(self, other: Self) -> (r: Self) {
        DbFlags(self.0 & other.0)
    }
}

impl vstd::std_specs::ops::BitAndSpecImpl<DbFlags> for DbFlags {
    open spec fn obeys_bitand_spec() -> bool {
        true
    }

    open spec fn bitand_req(self, rhs: DbFlags) -> bool {
        true
    }

    open spec fn bitand_spec(self, rhs: DbFlags) -> DbFlags {
        flags_common(self, rhs)
    }
}

impl core::ops::BitAndAssign for DbFlags {
    fn bitand_assign(&mut self, rhs: DbFlags)
        ensures
            *final(self) == flags_common(*old(self), rhs),
    {
        self.0 = self.0 & rhs.0;
    }
}

/// Combining flags does not depend on the order or the grouping, and adding a
/// flag twice adds it once.
pub proof fn lemma_flags_union(a: DbFlags, b: DbFlags, c: DbFlags)
    ensures
        flags_union(a, b) == flags_union(b, a),
        flags_union(flags_union(a, b), c) == flags_union(a, flags_union(b, c)),
        flags_union(a, a) == a,
{
    let (x, y, z) = (a.0, b.0, c.0);
    assert((x | y) == (y | x)) by (bit_vector);
    assert(((x | y) | z) == (x | (y | z))) by (bit_vector);
    assert((x | x) == x) by (bit_vector);
}

/// Every flag of a combination is set in it, and masking with a flag keeps no
/// more than that flag.
pub proof fn lemma_flags_mask(a: DbFlags, b: DbFlags)
    ensures
        flags_common(flags_union(a, b), a) == a,
        flags_common(a, b) == flags_common(b, a),
        flags_common(flags_common(a, b), b) == flags_common(a, b),
{
    let (x, y) = (a.0, b.0);
    assert(((x | y) & x) == x) by (bit_vector);
    assert((x & y) == (y & x)) by (bit_vector);
    assert(((x & y) & y) == (x & y)) by (bit_vector);
}

} // verus!
