use vstd::prelude::*;
use vstd::string::*;

verus! {

/// What `{:?}` writes for a string: the text between double quotes, with quotes,
/// backslashes and characters that do not print escaped.
pub uninterp spec fn debug_escaped(s: Seq<char>) -> Seq<char>;

/// `format!("{:?}", s)` of std, the debug form of a string.
/// Claimed: the result is `debug_escaped` of the text, which depends on the text alone.
#[verifier::external_body]
fn debug_text(s: &str) -> (r: String)
    ensures
        r@ == debug_escaped(s@),
{
    format!("{:?}", s)
}

/// The marks of a column: `#` for a primary key, `%` for a localizable column,
/// then its type or category, then `?` where it may be null.
pub open spec fn column_note(primary: bool, localizable: bool, coltype: Seq<char>, nullable: bool) -> Seq<char> {
    (if primary { "#"@ } else { ""@ }) + (if localizable { "%"@ } else { ""@ }) + coltype + (if nullable {
        "?"@
    } else {
        ""@
    })
}

/// How each mark of a column shows: `?` at the end exactly for a column that may be
/// null, `#` in front exactly for a primary key, `%` after it exactly for a
/// localizable column, each whatever the other marks are; with no mark the note is
/// the type alone.
pub proof fn lemma_column_marks(primary: bool, localizable: bool, coltype: Seq<char>, nullable: bool)
    ensures
        column_note(primary, localizable, coltype, true) == column_note(
            primary,
            localizable,
            coltype,
            false,
        ).push('?'),
        column_note(true, localizable, coltype, nullable) == seq!['#'] + column_note(
            false,
            localizable,
            coltype,
            nullable,
        ),
        column_note(false, true, coltype, nullable) == seq!['%'] + column_note(
            false,
            false,
            coltype,
            nullable,
        ),
        column_note(false, false, coltype, false) == coltype,
{
    reveal_strlit("#");
    reveal_strlit("%");
    reveal_strlit("?");
    reveal_strlit("");
    assert(column_note(primary, localizable, coltype, true) =~= column_note(
        primary,
        localizable,
        coltype,
        false,
    ).push('?'));
    assert(column_note(true, localizable, coltype, nullable) =~= seq!['#'] + column_note(
        false,
        localizable,
        coltype,
        nullable,
    ));
    assert(column_note(false, true, coltype, nullable) =~= seq!['%'] + column_note(
        false,
        false,
        coltype,
        nullable,
    ));
    assert(column_note(false, false, coltype, false) =~= coltype);
}

/// The text that describes one column of a table in a listing: its quoted name,
/// then its marks in a comment.
pub fn column_entry(name: &str, primary: bool, localizable: bool, coltype: &str, nullable: bool) -> (r: String)
    ensures
        r@ == debug_escaped(name@) + " /* "@ + column_note(primary, localizable, coltype@, nullable)
            + " */"@,
{
    proof {
        reveal_strlit("#");
        reveal_strlit("%");
        reveal_strlit("?");
        reveal_strlit("");
    }
    let mut r = debug_text(name);
    r.append(" /* ");
    if primary {
        r.append("#");
    }
    if localizable {
        r.append("%");
    }
    r.append(coltype);
    if nullable {
        r.append("?");
    }
    r.append(" */");
    r
}

} // verus!
