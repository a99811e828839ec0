use crate::dirtree::{
    dir_resolve, has_path, is_path, keys_distinct, lemma_path_unique, paths_bounded, DirRow,
};
use crate::names::{long_name, spec_long_name};
use vstd::prelude::*;
use vstd::string::*;

verus! {

/// The value of one cell of a table row in an installer package.
#[derive(Debug, PartialEq, Eq)]
pub enum CellValue {
    Null,
    Int(i32),
    Str(String),
    Binary,
}

/// The text of a cell that holds a string.
pub open spec fn cell_str(c: CellValue) -> Option<Seq<char>> {
    match c {
        CellValue::Str(s) => Some(s@),
        _ => None,
    }
}

fn cell_string(c: &CellValue) -> (r: Option<String>)
    ensures
        r.deep_view() == cell_str(*c),
{
    match c {
        CellValue::Str(s) => Some(s.clone()),
        _ => None,
    }
}

/// A row of the `Directory` table, read as `Directory`, `Directory_Parent` and
/// `DefaultDir`: kept where the key and the name are strings, with the long part of
/// the name; a parent that is not a string makes the row a root.
pub open spec fn directory_row(c: (CellValue, CellValue, CellValue)) -> Option<DirRow> {
    match (cell_str(c.0), cell_str(c.2)) {
        (Some(key), Some(name)) => Some((key, cell_str(c.1), spec_long_name(name))),
        _ => None,
    }
}

/// The rows of the `Directory` table that `directory_row` keeps, in order.
pub open spec fn directory_rows(cells: Seq<(CellValue, CellValue, CellValue)>) -> Seq<DirRow>
    decreases cells.len(),
{
    if cells.len() == 0 {
        seq![]
    } else {
        let prev = directory_rows(cells.drop_last());
        match directory_row(cells.last()) {
            Some(r) => prev.push(r),
            None => prev,
        }
    }
}

/// Reading the `Directory` table keeps, in table order, exactly the rows whose key
/// and name are strings, and gives each its parent cell as it stands: the parent's
/// text where that cell is a string, none where it is not, wherever the parent's
/// own row stands in the table.
pub proof fn lemma_directory_rows_read(cells: Seq<(CellValue, CellValue, CellValue)>)
    ensures
        directory_rows(cells) == cells.filter_map(
            |c: (CellValue, CellValue, CellValue)|
                match (cell_str(c.0), cell_str(c.2)) {
                    (Some(key), Some(name)) => Some((key, cell_str(c.1), spec_long_name(name))),
                    _ => None,
                },
        ),
        forall|i: int|
            0 <= i < cells.len() && cell_str((#[trigger] cells[i]).0) is Some && cell_str(cells[i].2) is Some
                ==> exists|t: int|
                0 <= t < directory_rows(cells).len() && directory_rows(cells)[t] == (
                    cell_str(cells[i].0)->0,
                    cell_str(cells[i].1),
                    spec_long_name(cell_str(cells[i].2)->0),
                ),
        forall|t: int|
            0 <= t < directory_rows(cells).len() ==> exists|i: int|
                0 <= i < cells.len() && cell_str(cells[i].0) == Some((#[trigger] directory_rows(cells)[t]).0)
                    && directory_rows(cells)[t].1 == cell_str(cells[i].1) && cell_str(cells[i].2) is Some
                    && directory_rows(cells)[t].2 == spec_long_name(cell_str(cells[i].2)->0),
    decreases cells.len(),
{
    if cells.len() > 0 {
        let d = cells.drop_last();
        lemma_directory_rows_read(d);
        let prev = directory_rows(d);
        let rows = directory_rows(cells);
        let c = cells.last();
        assert forall|i: int|
            0 <= i < cells.len() && cell_str((#[trigger] cells[i]).0) is Some && cell_str(cells[i].2) is Some
                implies exists|t: int|
                0 <= t < rows.len() && rows[t] == (
                    cell_str(cells[i].0)->0,
                    cell_str(cells[i].1),
                    spec_long_name(cell_str(cells[i].2)->0),
                ) by {
            if i < cells.len() - 1 {
                assert(cells[i] == d[i]);
                let t = choose|t: int|
                    0 <= t < prev.len() && prev[t] == (
                        cell_str(d[i].0)->0,
                        cell_str(d[i].1),
                        spec_long_name(cell_str(d[i].2)->0),
                    );
                assert(rows[t] == prev[t]);
            } else {
                assert(rows[prev.len() as int] == (
                    cell_str(c.0)->0,
                    cell_str(c.1),
                    spec_long_name(cell_str(c.2)->0),
                ));
            }
        }
        assert forall|t: int| 0 <= t < rows.len() implies exists|i: int|
            0 <= i < cells.len() && cell_str(cells[i].0) == Some((#[trigger] rows[t]).0) && rows[t].1
                == cell_str(cells[i].1) && cell_str(cells[i].2) is Some && rows[t].2 == spec_long_name(
                cell_str(cells[i].2)->0,
            ) by {
            if t < prev.len() {
                assert(rows[t] == prev[t]);
                let i = choose|i: int|
                    0 <= i < d.len() && cell_str(d[i].0) == Some((#[trigger] prev[t]).0) && prev[t].1
                        == cell_str(d[i].1) && cell_str(d[i].2) is Some && prev[t].2 == spec_long_name(
                        cell_str(d[i].2)->0,
                    );
                assert(cells[i] == d[i]);
            } else {
                assert(cells[cells.len() - 1] == c);
            }
        }
        match (cell_str(c.0), cell_str(c.2)) {
            (Some(key), Some(name)) => {
                assert(prev.push((key, cell_str(c.1), spec_long_name(name))) =~= prev + seq![
                    (key, cell_str(c.1), spec_long_name(name)),
                ]);
            },
            _ => {},
        }
    }
}

/// Reads the rows of the `Directory` table into the rows that the path
/// resolution walks.
pub fn directory_entries(cells: &Vec<(CellValue, CellValue, CellValue)>) -> (rows: Vec<
    (String, Option<String>, String),
>)
    ensures
        rows.deep_view() == directory_rows(cells@),
        forall|i: int|
            0 <= i < cells@.len() && cell_str((#[trigger] cells@[i]).0) is Some && cell_str(cells@[i].2) is Some
                ==> exists|t: int|
                0 <= t < rows.deep_view().len() && rows.deep_view()[t] == (
                    cell_str(cells@[i].0)->0,
                    cell_str(cells@[i].1),
                    spec_long_name(cell_str(cells@[i].2)->0),
                ),
{
    proof {
        lemma_directory_rows_read(cells@);
    }
    let mut rows: Vec<(String, Option<String>, String)> = Vec::new();
    let mut i: usize = 0;
    while i < cells.len()
        invariant
            i <= cells.len(),
            rows.deep_view() == directory_rows(cells@.subrange(0, i as int)),
        decreases cells.len() - i,
    {
        let c = &cells[i];
        proof {
            assert(cells@.subrange(0, i + 1).drop_last() =~= cells@.subrange(0, i as int));
            assert(cells@.subrange(0, i + 1).last() == cells@[i as int]);
        }
        match (&c.0, &c.2) {
            (CellValue::Str(key), CellValue::Str(name)) => {
                let parent = cell_string(&c.1);
                let long = long_name(name.as_str()).to_owned();
                let ghost old_rows = rows.deep_view();
                rows.push((key.clone(), parent, long));
                assert(rows.deep_view() =~= old_rows.push(
                    (key@, cell_str(c.1), spec_long_name(name@)),
                ));
            },
            _ => {},
        }
        i = i + 1;
    }
    assert(cells@.subrange(0, cells.len() as int) =~= cells@);
    rows
}

/// A row of the file query, read as `File.File`, `File.FileName` and
/// `Component.Directory_`: the file's key, the long part of its name and the key of
/// its directory, where all three are strings.
pub open spec fn file_row(c: (CellValue, CellValue, CellValue)) -> Option<
    (Seq<char>, Seq<char>, Seq<char>),
> {
    match (cell_str(c.0), cell_str(c.1), cell_str(c.2)) {
        (Some(file), Some(name), Some(dir)) => Some((file, spec_long_name(name), dir)),
        _ => None,
    }
}

/// The file rows that get a path: those that `file_row` keeps and whose directory
/// the resolution reaches, in order.
pub open spec fn placed_files(
    rows: Seq<DirRow>,
    cells: Seq<(CellValue, CellValue, CellValue)>,
) -> Seq<(Seq<char>, Seq<char>, Seq<char>)>
    decreases cells.len(),
{
    if cells.len() == 0 {
        seq![]
    } else {
        let prev = placed_files(rows, cells.drop_last());
        match file_row(cells.last()) {
            Some(f) => if has_path(rows, f.2) {
                prev.push(f)
            } else {
                prev
            },
            None => prev,
        }
    }
}

/// Every file row whose three cells are strings and whose directory has a path is
/// placed, in table order, and no other: each such row gives one entry with its
/// key, its long name and its directory.
pub proof fn lemma_placed_files_read(rows: Seq<DirRow>, cells: Seq<(CellValue, CellValue, CellValue)>)
    ensures
        placed_files(rows, cells) == cells.filter_map(
            |c: (CellValue, CellValue, CellValue)|
                match (cell_str(c.0), cell_str(c.1), cell_str(c.2)) {
                    (Some(file), Some(name), Some(dir)) => if has_path(rows, dir) {
                        Some((file, spec_long_name(name), dir))
                    } else {
                        None
                    },
                    _ => None,
                },
        ),
        forall|i: int|
            0 <= i < cells.len() && cell_str((#[trigger] cells[i]).0) is Some && cell_str(cells[i].1) is Some
                && cell_str(cells[i].2) is Some && has_path(rows, cell_str(cells[i].2)->0)
                ==> exists|t: int|
                0 <= t < placed_files(rows, cells).len() && placed_files(rows, cells)[t] == (
                    cell_str(cells[i].0)->0,
                    spec_long_name(cell_str(cells[i].1)->0),
                    cell_str(cells[i].2)->0,
                ),
    decreases cells.len(),
{
    if cells.len() > 0 {
        let d = cells.drop_last();
        lemma_placed_files_read(rows, d);
        let prev = placed_files(rows, d);
        let out = placed_files(rows, cells);
        let c = cells.last();
        assert forall|i: int|
            0 <= i < cells.len() && cell_str((#[trigger] cells[i]).0) is Some && cell_str(cells[i].1) is Some
                && cell_str(cells[i].2) is Some && has_path(rows, cell_str(cells[i].2)->0)
                implies exists|t: int|
                0 <= t < out.len() && out[t] == (
                    cell_str(cells[i].0)->0,
                    spec_long_name(cell_str(cells[i].1)->0),
                    cell_str(cells[i].2)->0,
                ) by {
            if i < cells.len() - 1 {
                assert(cells[i] == d[i]);
                let t = choose|t: int|
                    0 <= t < prev.len() && prev[t] == (
                        cell_str(d[i].0)->0,
                        spec_long_name(cell_str(d[i].1)->0),
                        cell_str(d[i].2)->0,
                    );
                assert(out[t] == prev[t]);
            } else {
                assert(out[prev.len() as int] == (
                    cell_str(c.0)->0,
                    spec_long_name(cell_str(c.1)->0),
                    cell_str(c.2)->0,
                ));
            }
        }
        match (cell_str(c.0), cell_str(c.1), cell_str(c.2)) {
            (Some(file), Some(name), Some(dir)) => {
                assert(prev.push((file, spec_long_name(name), dir)) =~= prev + seq![
                    (file, spec_long_name(name), dir),
                ]);
            },
            _ => {},
        }
    }
}

/// `o` places the file `f`: it holds its key and a path of its directory followed
/// by its long name.
pub open spec fn placed_as(
    rows: Seq<DirRow>,
    o: (String, Vec<String>),
    f: (Seq<char>, Seq<char>, Seq<char>),
) -> bool {
    let p = o.1.deep_view();
    &&& o.0@ == f.0
    &&& p.len() > 0
    &&& p.last() == f.1
    &&& is_path(rows, f.2, p.drop_last())
}

/// The install path of each file of the package: the path of its component's
/// directory followed by the long part of its file name, one entry per file row
/// whose directory resolves, in the order of the rows.
pub fn file_paths(
    rows: &Vec<(String, Option<String>, String)>,
    file_cells: &Vec<(CellValue, CellValue, CellValue)>,
) -> (out: Vec<(String, Vec<String>)>)
    requires
        paths_bounded(rows.deep_view()),
    ensures
        out@.len() == placed_files(rows.deep_view(), file_cells@).len(),
        forall|i: int|
            0 <= i < out@.len() ==> placed_as(
                rows.deep_view(),
                out@[i],
                #[trigger] placed_files(rows.deep_view(), file_cells@)[i],
            ),
        forall|i: int, j: int|
            0 <= i < out@.len() && 0 <= j < out@.len() && (#[trigger] placed_files(
                rows.deep_view(),
                file_cells@,
            )[i]).2 == (#[trigger] placed_files(rows.deep_view(), file_cells@)[j]).2
                ==> out@[i].1.deep_view().drop_last() == out@[j].1.deep_view().drop_last(),
        forall|i: int|
            0 <= i < file_cells@.len() && cell_str((#[trigger] file_cells@[i]).0) is Some && cell_str(
                file_cells@[i].1,
            ) is Some && cell_str(file_cells@[i].2) is Some && has_path(
                rows.deep_view(),
                cell_str(file_cells@[i].2)->0,
            ) ==> exists|u: int|
                0 <= u < out@.len() && out@[u].0@ == cell_str(file_cells@[i].0)->0 && placed_as(
                    rows.deep_view(),
                    out@[u],
                    (
                        cell_str(file_cells@[i].0)->0,
                        spec_long_name(cell_str(file_cells@[i].1)->0),
                        cell_str(file_cells@[i].2)->0,
                    ),
                ),
{
    let ghost rv = rows.deep_view();
    let dirs = dir_resolve(rows);
    let mut out: Vec<(String, Vec<String>)> = Vec::new();
    let mut i: usize = 0;
    while i < file_cells.len()
        invariant
            i <= file_cells.len(),
            rv == rows.deep_view(),
            forall|k: Seq<char>| #[trigger] dirs@.contains_key(k) <==> has_path(rv, k),
            forall|k: Seq<char>|
                #[trigger] dirs@.contains_key(k) ==> is_path(rv, k, dirs@[k].deep_view()),
            out@.len() == placed_files(rv, file_cells@.subrange(0, i as int)).len(),
            forall|u: int|
                0 <= u < out@.len() ==> placed_as(
                    rv,
                    out@[u],
                    #[trigger] placed_files(rv, file_cells@.subrange(0, i as int))[u],
                ),
            forall|u: int|
                0 <= u < out@.len() ==> dirs@.contains_key(
                    (#[trigger] placed_files(rv, file_cells@.subrange(0, i as int))[u]).2,
                ) && out@[u].1.deep_view().drop_last() == dirs@[placed_files(
                    rv,
                    file_cells@.subrange(0, i as int),
                )[u].2].deep_view(),
        decreases file_cells.len() - i,
    {
        let c = &file_cells[i];
        let ghost before = placed_files(rv, file_cells@.subrange(0, i as int));
        let ghost after = placed_files(rv, file_cells@.subrange(0, i + 1));
        let ghost old_out = out@;
        proof {
            assert(file_cells@.subrange(0, i + 1).drop_last() =~= file_cells@.subrange(0, i as int));
            assert(file_cells@.subrange(0, i + 1).last() == file_cells@[i as int]);
        }
        match (&c.0, &c.1, &c.2) {
            (CellValue::Str(file), CellValue::Str(name), CellValue::Str(dir)) => {
                match dirs.get(dir.as_str()) {
                    Some(base) => {
                        let mut path: Vec<String> = base.clone();
                        assert(path.deep_view() =~= base.deep_view());
                        path.push(long_name(name.as_str()).to_owned());
                        let ghost pv = path.deep_view();
                        assert(pv.drop_last() =~= base.deep_view());
                        out.push((file.clone(), path));
                        assert(after == before.push((file@, spec_long_name(name@), dir@)));
                        assert forall|u: int|
                            0 <= u < out@.len() implies placed_as(
                            rv,
                            out@[u],
                            #[trigger] after[u],
                        ) && dirs@.contains_key(after[u].2) && out@[u].1.deep_view().drop_last()
                            == dirs@[after[u].2].deep_view() by {
                            if u < old_out.len() {
                                assert(after[u] == before[u]);
                                assert(out@[u] == old_out[u]);
                            }
                        }
                    },
                    None => {
                        assert(after == before);
                    },
                }
            },
            _ => {
                assert(after == before);
            },
        }
        i = i + 1;
    }
    assert(file_cells@.subrange(0, file_cells.len() as int) =~= file_cells@);
    let ghost placed = placed_files(rv, file_cells@);
    proof {
        lemma_placed_files_read(rv, file_cells@);
        assert forall|i: int|
            0 <= i < file_cells@.len() && cell_str((#[trigger] file_cells@[i]).0) is Some && cell_str(
                file_cells@[i].1,
            ) is Some && cell_str(file_cells@[i].2) is Some && has_path(rv, cell_str(file_cells@[i].2)->0)
                implies exists|u: int|
                0 <= u < out@.len() && out@[u].0@ == cell_str(file_cells@[i].0)->0 && placed_as(
                    rv,
                    out@[u],
                    (
                        cell_str(file_cells@[i].0)->0,
                        spec_long_name(cell_str(file_cells@[i].1)->0),
                        cell_str(file_cells@[i].2)->0,
                    ),
                ) by {
            let t = choose|t: int|
                0 <= t < placed.len() && placed[t] == (
                    cell_str(file_cells@[i].0)->0,
                    spec_long_name(cell_str(file_cells@[i].1)->0),
                    cell_str(file_cells@[i].2)->0,
                );
            assert(placed_as(rv, out@[t], placed[t]));
        }
    }
    assert forall|a: int, b: int|
        0 <= a < out@.len() && 0 <= b < out@.len() && (#[trigger] placed[a]).2 == (
        #[trigger] placed[b]).2 implies out@[a].1.deep_view().drop_last()
        == out@[b].1.deep_view().drop_last() by {
        assert(dirs@.contains_key(placed[a].2));
        assert(dirs@.contains_key(placed[b].2));
    }
    out
}

/// Where every directory key occurs in one row only, the path that `file_paths`
/// gives a file is the one path of its directory followed by its long name.
pub proof fn lemma_file_path_exact(
    rows: Seq<DirRow>,
    o: (String, Vec<String>),
    f: (Seq<char>, Seq<char>, Seq<char>),
    p: Seq<Seq<char>>,
)
    requires
        keys_distinct(rows),
        placed_as(rows, o, f),
        is_path(rows, f.2, p),
    ensures
        o.1.deep_view() == p.push(f.1),
{
    let q = o.1.deep_view();
    lemma_path_unique(rows, f.2, q.drop_last(), p);
    assert(q =~= q.drop_last().push(q.last()));
}

/// The stream name of the first `Media` row whose `Cabinet` is a string that
/// starts with `'#'`, without that mark.
pub open spec fn first_cabinet(cells: Seq<CellValue>) -> Option<Seq<char>>
    decreases cells.len(),
{
    if cells.len() == 0 {
        None
    } else {
        match cell_str(cells[0]) {
            Some(s) => if s.len() > 0 && s[0] == '#' {
                Some(s.skip(1))
            } else {
                first_cabinet(cells.drop_first())
            },
            None => first_cabinet(cells.drop_first()),
        }
    }
}

/// Picks, among the `Cabinet` cells of the `Media` table, the name of the stream
/// that holds the embedded cabinet.
pub fn cabinet_name(cells: &Vec<CellValue>) -> (r: Option<String>)
    ensures
        r.deep_view() == first_cabinet(cells@),
{
    let mut i: usize = 0;
    assert(cells@.skip(0) =~= cells@);
    while i < cells.len()
        invariant
            i <= cells.len(),
            first_cabinet(cells@) == first_cabinet(cells@.skip(i as int)),
        decreases cells.len() - i,
    {
        proof {
            assert(cells@.skip(i as int).drop_first() =~= cells@.skip(i + 1));
            assert(cells@.skip(i as int)[0] == cells@[i as int]);
        }
        match &cells[i] {
            CellValue::Str(s) => {
                let n = s.as_str().unicode_len();
                if n > 0 && s.as_str().get_char(0) == '#' {
                    let name = s.as_str().substring_char(1, n).to_owned();
                    assert(name@ =~= s@.skip(1));
                    return Some(name);
                }
            },
            _ => {},
        }
        i = i + 1;
    }
    None
}

} // verus!
