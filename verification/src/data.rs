//! The data-loading boundary.
//!
//! Reading the CSV file is I/O and happens outside the library.  What is
//! verified here are the loader's decision rules: which header names the
//! identifier columns and which name feature columns, and which rows
//! belong to the requested season.

use vstd::prelude::*;
use vstd::string::StrSliceExecFns;
use crate::ids::str_eq;

verus! {

/// Loader configuration: the statistics file and the season key whose
/// rows are kept.
pub struct DataLoader {
    pub file_path: String,
    pub year: String,
}

impl DataLoader {
    /// A loader for the given file and season key.
    pub fn new(file_path: &str, year: &str) -> (r: DataLoader)
        ensures
            r.file_path@ == file_path@,
            r.year@ == year@,
    {
        DataLoader { file_path: file_path.to_owned(), year: year.to_owned() }
    }
}

/// The errors of header classification: the mandatory identifier columns
/// are missing.
#[derive(Clone, Copy, Debug, PartialEq, Eq, Structural)]
pub enum HeaderError {
    MissingTeamIdColumn,
    MissingGameIdColumn,
}

/// Names what `char::is_alphanumeric` returns: a property of the
/// character alone.
pub uninterp spec fn alnum(c: char) -> bool;

/// Relies on `char::is_alphanumeric` of std: the result depends on the
/// character alone.
pub assume_specification[ char::is_alphanumeric ](c: char) -> (r: bool)
    ensures
        r == alnum(c),
;

/// Every character of the column name is alphanumeric or an underscore:
/// such a column carries a feature.
pub open spec fn feature_name_ok(s: Seq<char>) -> bool {
    forall|i: int| 0 <= i < s.len() ==> (alnum(#[trigger] s[i]) || s[i] == '_')
}

/// Decides `feature_name_ok` for a column name.
pub fn is_feature_column(name: &str) -> (r: bool)
    ensures
        r == feature_name_ok(name@),
{
    let n = name.unicode_len();
    let mut i: usize = 0;
    while i < n
        invariant
            n == name@.len(),
            0 <= i <= n,
            forall|j: int| 0 <= j < i ==> (alnum(#[trigger] name@[j]) || name@[j] == '_'),
        decreases n - i,
    {
        let c = name.get_char(i);
        if !(c.is_alphanumeric() || c == '_') {
            return false;
        }
        i = i + 1;
    }
    true
}

/// The loader's row filter: a game row belongs to the season exactly when
/// the leading four characters of its game identifier equal the season
/// key.  A game identifier shorter than four characters is malformed
/// input the loader does not pass here.
pub fn year_matches(game_id: &str, year: &str) -> (r: bool)
    requires
        game_id@.len() >= 4,
    ensures
        r == (year@ == game_id@.subrange(0, 4)),
{
    let ylen = year.unicode_len();
    if ylen != 4 {
        proof {
            assert(game_id@.subrange(0, 4).len() == 4);
        }
        return false;
    }
    let mut i: usize = 0;
    while i < 4
        invariant
            game_id@.len() >= 4,
            year@.len() == 4,
            0 <= i <= 4,
            forall|j: int| 0 <= j < i ==> year@[j] == game_id@[j],
        decreases 4 - i,
    {
        let cy = year.get_char(i);
        let cg = game_id.get_char(i);
        if cy != cg {
            proof {
                assert(game_id@.subrange(0, 4)[i as int] == game_id@[i as int]);
            }
            return false;
        }
        i = i + 1;
    }
    proof {
        assert(year@ =~= game_id@.subrange(0, 4));
    }
    true
}

/// A header classification: where the team and game identifier columns
/// stand, and which columns carry features, ascending.
#[derive(Debug, PartialEq, Eq)]
pub struct HeaderPlan {
    pub team_idx: usize,
    pub game_idx: usize,
    pub feature_cols: Vec<usize>,
}

/// Column `j` of `headers` is a feature column: named like a feature and
/// not an identifier column.
pub open spec fn is_feature_at(headers: Seq<String>, j: int) -> bool {
    &&& headers[j]@ != "team_id"@
    &&& headers[j]@ != "game_id"@
    &&& feature_name_ok(headers[j]@)
}

/// Classifies the header row as the loader does: the team and game
/// identifier columns are the last headers named `team_id` and `game_id`;
/// every other column whose name is made of alphanumerics and underscores
/// is a feature column, in header order.  Fails when an identifier column
/// is missing, the team one reported first.
pub fn classify_headers(headers: &Vec<String>) -> (r: Result<HeaderPlan, HeaderError>)
    ensures
        (r is Ok) <==> ((exists|j: int|
            0 <= j < headers@.len() && (#[trigger] headers@[j])@ == "team_id"@) && (exists|j: int|
            0 <= j < headers@.len() && (#[trigger] headers@[j])@ == "game_id"@)),
        (forall|j: int| 0 <= j < headers@.len() ==> (#[trigger] headers@[j])@ != "team_id"@)
            ==> r == Err::<HeaderPlan, HeaderError>(HeaderError::MissingTeamIdColumn),
        ((exists|j: int| 0 <= j < headers@.len() && (#[trigger] headers@[j])@ == "team_id"@)
            && (forall|j: int|
            0 <= j < headers@.len() ==> (#[trigger] headers@[j])@ != "game_id"@)) ==> r == Err::<
            HeaderPlan,
            HeaderError,
        >(HeaderError::MissingGameIdColumn),
        r matches Ok(p) ==> p.team_idx < headers@.len() && headers@[p.team_idx as int]@
            == "team_id"@,
        r matches Ok(p) ==> forall|j: int|
            p.team_idx < j < headers@.len() ==> (#[trigger] headers@[j])@ != "team_id"@,
        r matches Ok(p) ==> p.game_idx < headers@.len() && headers@[p.game_idx as int]@
            == "game_id"@,
        r matches Ok(p) ==> forall|j: int|
            p.game_idx < j < headers@.len() ==> (#[trigger] headers@[j])@ != "game_id"@,
        r matches Ok(p) ==> forall|m: int|
            0 <= m < p.feature_cols@.len() ==> (#[trigger] p.feature_cols@[m]) < headers@.len()
                && is_feature_at(headers@, p.feature_cols@[m] as int),
        r matches Ok(p) ==> forall|m1: int, m2: int|
            0 <= m1 < m2 < p.feature_cols@.len() ==> p.feature_cols@[m1] < p.feature_cols@[m2],
        r matches Ok(p) ==> forall|j: int|
            0 <= j < headers@.len() && is_feature_at(headers@, j) ==> exists|m: int|
                0 <= m < p.feature_cols@.len() && #[trigger] p.feature_cols@[m] == j,
{
    let n = headers.len();
    let mut team_idx: Option<usize> = None;
    let mut game_idx: Option<usize> = None;
    let mut cols: Vec<usize> = Vec::new();
    let mut i: usize = 0;
    while i < n
        invariant
            n == headers@.len(),
            0 <= i <= n,
            team_idx is None ==> forall|j: int|
                0 <= j < i ==> (#[trigger] headers@[j])@ != "team_id"@,
            team_idx matches Some(x) ==> x < i && headers@[x as int]@ == "team_id"@ && forall|
                j: int,
            | x < j < i ==> (#[trigger] headers@[j])@ != "team_id"@,
            game_idx is None ==> forall|j: int|
                0 <= j < i ==> (#[trigger] headers@[j])@ != "game_id"@,
            game_idx matches Some(x) ==> x < i && headers@[x as int]@ == "game_id"@ && forall|
                j: int,
            | x < j < i ==> (#[trigger] headers@[j])@ != "game_id"@,
            forall|m: int|
                0 <= m < cols@.len() ==> (#[trigger] cols@[m]) < i && is_feature_at(
                    headers@,
                    cols@[m] as int,
                ),
            forall|m1: int, m2: int| 0 <= m1 < m2 < cols@.len() ==> cols@[m1] < cols@[m2],
            forall|j: int|
                0 <= j < i && is_feature_at(headers@, j) ==> exists|m: int|
                    0 <= m < cols@.len() && #[trigger] cols@[m] == j,
        decreases n - i,
    {
        proof {
            reveal_strlit("team_id");
            reveal_strlit("game_id");
            assert(("team_id"@) != ("game_id"@)) by {
                assert(("team_id"@)[0] == 't');
                assert(("game_id"@)[0] == 'g');
            }
        }
        let h = &headers[i];
        if str_eq(h.as_str(), "team_id") {
            team_idx = Some(i);
        } else if str_eq(h.as_str(), "game_id") {
            game_idx = Some(i);
        } else if is_feature_column(h.as_str()) {
            let ghost cols0 = cols@;
            cols.push(i);
            proof {
                assert(cols@[cols@.len() - 1] == i);
                assert forall|j: int|
                    0 <= j < i + 1 && is_feature_at(headers@, j) implies exists|m: int|
                    0 <= m < cols@.len() && #[trigger] cols@[m] == j by {
                    if j < i {
                        let m = choose|m: int| 0 <= m < cols0.len() && #[trigger] cols0[m] == j;
                        assert(cols@[m] == j);
                    } else {
                        assert(cols@[cols@.len() - 1] == j);
                    }
                }
            }
        }
        i = i + 1;
    }
    let ti = match team_idx {
        Some(x) => x,
        None => {
            return Err(HeaderError::MissingTeamIdColumn);
        },
    };
    let gi = match game_idx {
        Some(x) => x,
        None => {
            return Err(HeaderError::MissingGameIdColumn);
        },
    };
    proof {
        assert(headers@[ti as int]@ == "team_id"@);
        assert(exists|j: int|
            0 <= j < headers@.len() && (#[trigger] headers@[j])@ == "team_id"@);
        assert(headers@[gi as int]@ == "game_id"@);
        assert(exists|j: int|
            0 <= j < headers@.len() && (#[trigger] headers@[j])@ == "game_id"@);
    }
    let ghost colsv = cols@;
    let plan = HeaderPlan { team_idx: ti, game_idx: gi, feature_cols: cols };
    proof {
        assert(plan.feature_cols@ == colsv);
        assert forall|j: int|
            0 <= j < headers@.len() && is_feature_at(headers@, j) implies exists|m: int|
            0 <= m < plan.feature_cols@.len() && #[trigger] plan.feature_cols@[m] == j by {
            let m = choose|m: int| 0 <= m < colsv.len() && #[trigger] colsv[m] == j;
            assert(plan.feature_cols@[m] == j);
        }
    }
    Ok(plan)
}

} // verus!
