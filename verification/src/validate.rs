use crate::text::push_char;
use crate::types::{
    delete_mode_of, merge_mode_of, DeleteMode, EraMetadata, IdentityStrategy, MergeMode,
    PlannerContext,
};
use crate::value::has_name;
use vstd::prelude::*;

verus! {

/// Why a configuration is turned down before any row is read.
#[derive(Debug, PartialEq, Eq)]
pub enum ConfigError {
    /// The merge mode is none of the eight.
    InvalidMergeMode(String),
    /// The delete mode is none of the four.
    InvalidDeleteMode(String),
    /// A column that holds a bound of the era is named as ephemeral; the
    /// fields are the start and the end column of the era.
    BoundaryColumnEphemeral(String, String),
    /// A column that is kept in step with the bounds is named as ephemeral.
    SynchronizedColumnEphemeral(String),
    /// The source lacks the row id column; the fields are the column and the source.
    RowIdColumnMissing(String, String),
    /// The source lacks the founding id column; the fields are the column and the source.
    FoundingIdColumnMissing(String, String),
    /// The target lacks an identity column; the fields are the column and the target.
    IdentityColumnMissing(String, String),
    /// The target lacks a lookup column; the fields are the column and the target.
    LookupColumnMissing(String, String),
    /// The subtype of the era is neither discrete nor numeric.
    UnsupportedSubtypeCategory(char),
    /// The target has no era of the name.
    NoSuchEra(String),
    /// There are neither identity columns nor lookup keys.
    NoEntityKeys,
    /// The source has neither the range column nor the start column of the
    /// era; the fields are the source, the range column and the start column.
    SourceLacksStart(String, String, String),
    /// The source has no column that gives the end of an interval; the
    /// fields are the source, the range column, the end column and the
    /// synchronized column.
    SourceLacksEnd(String, String, String, String),
}

/// What a [`ConfigError`] is to the contracts.
pub enum ConfigErrorModel {
    InvalidMergeMode(Seq<char>),
    InvalidDeleteMode(Seq<char>),
    BoundaryColumnEphemeral(Seq<char>, Seq<char>),
    SynchronizedColumnEphemeral(Seq<char>),
    RowIdColumnMissing(Seq<char>, Seq<char>),
    FoundingIdColumnMissing(Seq<char>, Seq<char>),
    IdentityColumnMissing(Seq<char>, Seq<char>),
    LookupColumnMissing(Seq<char>, Seq<char>),
    UnsupportedSubtypeCategory(char),
    NoSuchEra(Seq<char>),
    NoEntityKeys,
    SourceLacksStart(Seq<char>, Seq<char>, Seq<char>),
    SourceLacksEnd(Seq<char>, Seq<char>, Seq<char>, Seq<char>),
}

impl DeepView for ConfigError {
    type V = ConfigErrorModel;

    open spec fn deep_view(&self) -> ConfigErrorModel {
        match self {
            ConfigError::InvalidMergeMode(m) => ConfigErrorModel::InvalidMergeMode(m@),
            ConfigError::InvalidDeleteMode(m) => ConfigErrorModel::InvalidDeleteMode(m@),
            ConfigError::BoundaryColumnEphemeral(f, u) => ConfigErrorModel::BoundaryColumnEphemeral(
                f@,
                u@,
            ),
            ConfigError::SynchronizedColumnEphemeral(c) => ConfigErrorModel::SynchronizedColumnEphemeral(
                c@,
            ),
            ConfigError::RowIdColumnMissing(c, t) => ConfigErrorModel::RowIdColumnMissing(c@, t@),
            ConfigError::FoundingIdColumnMissing(c, t) => ConfigErrorModel::FoundingIdColumnMissing(
                c@,
                t@,
            ),
            ConfigError::IdentityColumnMissing(c, t) => ConfigErrorModel::IdentityColumnMissing(
                c@,
                t@,
            ),
            ConfigError::LookupColumnMissing(c, t) => ConfigErrorModel::LookupColumnMissing(c@, t@),
            ConfigError::UnsupportedSubtypeCategory(c) => ConfigErrorModel::UnsupportedSubtypeCategory(
                *c,
            ),
            ConfigError::NoSuchEra(e) => ConfigErrorModel::NoSuchEra(e@),
            ConfigError::NoEntityKeys => ConfigErrorModel::NoEntityKeys,
            ConfigError::SourceLacksStart(s, r, f) => ConfigErrorModel::SourceLacksStart(s@, r@, f@),
            ConfigError::SourceLacksEnd(s, r, u, t) => ConfigErrorModel::SourceLacksEnd(
                s@,
                r@,
                u@,
                t@,
            ),
        }
    }
}

/// The text of an error.
pub open spec fn error_text(e: ConfigErrorModel) -> Seq<char> {
    match e {
        ConfigErrorModel::InvalidMergeMode(m) => "Invalid merge mode: "@ + m,
        ConfigErrorModel::InvalidDeleteMode(m) => "Invalid delete mode: "@ + m,
        ConfigErrorModel::BoundaryColumnEphemeral(f, u) => "Temporal boundary columns (\""@ + f
            + "\", \""@ + u + "\") cannot be specified in ephemeral_columns."@,
        ConfigErrorModel::SynchronizedColumnEphemeral(c) => "Synchronized column \""@ + c
            + "\" is automatically handled and should not be specified in ephemeral_columns."@,
        ConfigErrorModel::RowIdColumnMissing(c, t) => "row_id_column \""@ + c
            + "\" does not exist in source table "@ + t,
        ConfigErrorModel::FoundingIdColumnMissing(c, t) => "founding_id_column \""@ + c
            + "\" does not exist in source table "@ + t,
        ConfigErrorModel::IdentityColumnMissing(c, t) => "identity_column "@ + c
            + " does not exist in target table "@ + t,
        ConfigErrorModel::LookupColumnMissing(c, t) => "lookup_column "@ + c
            + " does not exist in target table "@ + t,
        ConfigErrorModel::UnsupportedSubtypeCategory(c) => "Unsupported range subtype category: "@
            + seq![c],
        ConfigErrorModel::NoSuchEra(e) => "No era named \""@ + e + "\" found for target table"@,
        ConfigErrorModel::NoEntityKeys => "Neither identity columns nor lookup keys are given."@,
        ConfigErrorModel::SourceLacksStart(s, r, f) => "Source table \""@ + s
            + "\" must have either the range column \""@ + r + "\" or the component column \""@ + f
            + "\"."@,
        ConfigErrorModel::SourceLacksEnd(s, r, u, t) => "Source table \""@ + s + "\" must have a \""@
            + r + "\", \""@ + u + "\", or \""@ + t + "\" column."@,
    }
}

impl ConfigError {
    /// The text of the error.
    pub fn message(&self) -> (out: String)
        ensures
            out@ == error_text(self.deep_view()),
    {
        match self {
            ConfigError::InvalidMergeMode(m) => {
                let mut out = String::from_str("Invalid merge mode: ");
                out.append(m.as_str());
                out
            },
            ConfigError::InvalidDeleteMode(m) => {
                let mut out = String::from_str("Invalid delete mode: ");
                out.append(m.as_str());
                out
            },
            ConfigError::BoundaryColumnEphemeral(f, u) => {
                let mut out = String::from_str("Temporal boundary columns (\"");
                out.append(f.as_str());
                out.append("\", \"");
                out.append(u.as_str());
                out.append("\") cannot be specified in ephemeral_columns.");
                out
            },
            ConfigError::SynchronizedColumnEphemeral(c) => {
                let mut out = String::from_str("Synchronized column \"");
                out.append(c.as_str());
                out.append(
                    "\" is automatically handled and should not be specified in ephemeral_columns.",
                );
                out
            },
            ConfigError::RowIdColumnMissing(c, t) => {
                let mut out = String::from_str("row_id_column \"");
                out.append(c.as_str());
                out.append("\" does not exist in source table ");
                out.append(t.as_str());
                out
            },
            ConfigError::FoundingIdColumnMissing(c, t) => {
                let mut out = String::from_str("founding_id_column \"");
                out.append(c.as_str());
                out.append("\" does not exist in source table ");
                out.append(t.as_str());
                out
            },
            ConfigError::IdentityColumnMissing(c, t) => {
                let mut out = String::from_str("identity_column ");
                out.append(c.as_str());
                out.append(" does not exist in target table ");
                out.append(t.as_str());
                out
            },
            ConfigError::LookupColumnMissing(c, t) => {
                let mut out = String::from_str("lookup_column ");
                out.append(c.as_str());
                out.append(" does not exist in target table ");
                out.append(t.as_str());
                out
            },
            ConfigError::UnsupportedSubtypeCategory(c) => {
                let mut out = String::from_str("Unsupported range subtype category: ");
                push_char(&mut out, *c);
                assert(out@ =~= "Unsupported range subtype category: "@ + seq![*c]);
                out
            },
            ConfigError::NoSuchEra(e) => {
                let mut out = String::from_str("No era named \"");
                out.append(e.as_str());
                out.append("\" found for target table");
                out
            },
            ConfigError::NoEntityKeys => String::from_str(
                "Neither identity columns nor lookup keys are given.",
            ),
            ConfigError::SourceLacksStart(s, r, f) => {
                let mut out = String::from_str("Source table \"");
                out.append(s.as_str());
                out.append("\" must have either the range column \"");
                out.append(r.as_str());
                out.append("\" or the component column \"");
                out.append(f.as_str());
                out.append("\".");
                out
            },
            ConfigError::SourceLacksEnd(s, r, u, t) => {
                let mut out = String::from_str("Source table \"");
                out.append(s.as_str());
                out.append("\" must have a \"");
                out.append(r.as_str());
                out.append("\", \"");
                out.append(u.as_str());
                out.append("\", or \"");
                out.append(t.as_str());
                out.append("\" column.");
                out
            },
        }
    }
}

/// Reads the merge mode and the delete mode of a call from their names.
pub fn read_modes(mode: &str, delete_mode: &str) -> (r: Result<(MergeMode, DeleteMode), ConfigError>)
    ensures
        match r {
            Ok(modes) => merge_mode_of(mode@) == Some(modes.0) && delete_mode_of(delete_mode@)
                == Some(modes.1),
            Err(e) => if merge_mode_of(mode@) is None {
                e.deep_view() == ConfigErrorModel::InvalidMergeMode(mode@)
            } else {
                delete_mode_of(delete_mode@) is None && e.deep_view()
                    == ConfigErrorModel::InvalidDeleteMode(delete_mode@)
            },
        },
{
    let m = match MergeMode::from_str(mode) {
        Some(m) => m,
        None => {
            return Err(ConfigError::InvalidMergeMode(String::from_str(mode)));
        },
    };
    let d = match DeleteMode::from_str(delete_mode) {
        Some(d) => d,
        None => {
            return Err(ConfigError::InvalidDeleteMode(String::from_str(delete_mode)));
        },
    };
    Ok((m, d))
}

/// What is wrong with the ephemeral columns of a call, if anything: none of
/// them may hold a bound of the era or be kept in step with one.
pub open spec fn ephemeral_fault(
    range_col: Seq<char>,
    valid_from_col: Seq<char>,
    valid_until_col: Seq<char>,
    valid_to_col: Option<Seq<char>>,
    ephemeral: Seq<Seq<char>>,
) -> Option<ConfigErrorModel> {
    if ephemeral.contains(valid_from_col) || ephemeral.contains(valid_until_col) {
        Some(ConfigErrorModel::BoundaryColumnEphemeral(valid_from_col, valid_until_col))
    } else if valid_to_col is Some && ephemeral.contains(valid_to_col->0) {
        Some(ConfigErrorModel::SynchronizedColumnEphemeral(valid_to_col->0))
    } else if ephemeral.contains(range_col) {
        Some(ConfigErrorModel::SynchronizedColumnEphemeral(range_col))
    } else {
        None
    }
}

/// Turns down ephemeral columns that hold a bound of the era.
pub fn check_ephemeral_columns(era: &EraMetadata, ephemeral_columns: &Vec<String>) -> (r: Result<
    (),
    ConfigError,
>)
    ensures
        match r {
            Ok(_) => ephemeral_fault(
                era.range_col@,
                era.valid_from_col@,
                era.valid_until_col@,
                era.valid_to_col.deep_view(),
                ephemeral_columns.deep_view(),
            ) is None,
            Err(e) => Some(e.deep_view()) == ephemeral_fault(
                era.range_col@,
                era.valid_from_col@,
                era.valid_until_col@,
                era.valid_to_col.deep_view(),
                ephemeral_columns.deep_view(),
            ),
        },
{
    if has_name(ephemeral_columns, era.valid_from_col.as_str()) || has_name(
        ephemeral_columns,
        era.valid_until_col.as_str(),
    ) {
        return Err(
            ConfigError::BoundaryColumnEphemeral(
                era.valid_from_col.clone(),
                era.valid_until_col.clone(),
            ),
        );
    }
    match &era.valid_to_col {
        Some(vt) => {
            if has_name(ephemeral_columns, vt.as_str()) {
                return Err(ConfigError::SynchronizedColumnEphemeral(vt.clone()));
            }
        },
        None => {},
    }
    if has_name(ephemeral_columns, era.range_col.as_str()) {
        return Err(ConfigError::SynchronizedColumnEphemeral(era.range_col.clone()));
    }
    Ok(())
}

/// The place of the first of `names` that is not among `cols`.
pub open spec fn first_missing(names: Seq<Seq<char>>, cols: Seq<Seq<char>>) -> Option<int>
    decreases names.len(),
{
    if names.len() == 0 {
        None
    } else {
        match first_missing(names.drop_last(), cols) {
            Some(i) => Some(i),
            None => if cols.contains(names.last()) {
                None
            } else {
                Some(names.len() - 1)
            },
        }
    }
}

/// The columns that a call names.
pub struct NamedColumns {
    pub row_id_column: Seq<char>,
    pub founding_id_column: Option<Seq<char>>,
    pub identity_columns: Option<Seq<Seq<char>>>,
    pub lookup_columns: Option<Seq<Seq<char>>>,
}

/// The first of the columns that a call names which the table it belongs
/// to lacks, if there is one: the row id column and the founding id column
/// belong to the source, identity and lookup columns to the target.
pub open spec fn column_fault(
    named: NamedColumns,
    source_cols: Seq<Seq<char>>,
    target_cols: Seq<Seq<char>>,
    source_ident: Seq<char>,
    target_ident: Seq<char>,
) -> Option<ConfigErrorModel> {
    if !source_cols.contains(named.row_id_column) {
        Some(ConfigErrorModel::RowIdColumnMissing(named.row_id_column, source_ident))
    } else if named.founding_id_column is Some && !source_cols.contains(named.founding_id_column->0) {
        Some(ConfigErrorModel::FoundingIdColumnMissing(named.founding_id_column->0, source_ident))
    } else if named.identity_columns is Some && first_missing(named.identity_columns->0, target_cols) is Some {
        Some(
            ConfigErrorModel::IdentityColumnMissing(
                named.identity_columns->0[first_missing(named.identity_columns->0, target_cols)->0],
                target_ident,
            ),
        )
    } else if named.lookup_columns is Some && first_missing(named.lookup_columns->0, target_cols) is Some {
        Some(
            ConfigErrorModel::LookupColumnMissing(
                named.lookup_columns->0[first_missing(named.lookup_columns->0, target_cols)->0],
                target_ident,
            ),
        )
    } else {
        None
    }
}

fn find_missing(names: &Vec<String>, cols: &Vec<String>) -> (r: Option<usize>)
    ensures
        match r {
            Some(i) => first_missing(names.deep_view(), cols.deep_view()) == Some(i as int) && i
                < names.len(),
            None => first_missing(names.deep_view(), cols.deep_view()) is None,
        },
{
    let ghost nm = names.deep_view();
    let ghost cm = cols.deep_view();
    let mut i: usize = 0;
    assert(nm.take(0) =~= Seq::empty());
    while i < names.len()
        invariant
            i <= names.len(),
            nm == names.deep_view(),
            cm == cols.deep_view(),
            first_missing(nm.take(i as int), cm) is None,
        decreases names.len() - i,
    {
        proof {
            crate::views::lemma_take_step(nm, i as int);
            assert(nm[i as int] == names@[i as int]@);
        }
        if !has_name(cols, names[i].as_str()) {
            proof {
                lemma_first_missing_prefix(nm, cm, i as int + 1);
            }
            return Some(i);
        }
        i += 1;
    }
    proof {
        crate::views::lemma_take_all(nm);
    }
    None
}

proof fn lemma_first_missing_prefix(names: Seq<Seq<char>>, cols: Seq<Seq<char>>, k: int)
    requires
        0 <= k <= names.len(),
        first_missing(names.take(k), cols) is Some,
    ensures
        first_missing(names, cols) == first_missing(names.take(k), cols),
    decreases names.len() - k,
{
    if k < names.len() {
        crate::views::lemma_take_step(names, k);
        lemma_first_missing_prefix(names, cols, k + 1);
    } else {
        crate::views::lemma_take_all(names);
    }
}

/// Turns down a call that names a column which its table lacks.
pub fn check_columns(
    source_cols: &Vec<String>,
    target_cols: &Vec<String>,
    row_id_column: &str,
    founding_id_column: &Option<String>,
    identity_columns: &Option<Vec<String>>,
    lookup_columns: &Option<Vec<String>>,
    source_ident: &str,
    target_ident: &str,
) -> (r: Result<(), ConfigError>)
    ensures
        ({
            let fault = column_fault(
                NamedColumns {
                    row_id_column: row_id_column@,
                    founding_id_column: founding_id_column.deep_view(),
                    identity_columns: identity_columns.deep_view(),
                    lookup_columns: lookup_columns.deep_view(),
                },
                source_cols.deep_view(),
                target_cols.deep_view(),
                source_ident@,
                target_ident@,
            );
            match r {
                Ok(_) => fault is None,
                Err(e) => Some(e.deep_view()) == fault,
            }
        }),
{
    if !has_name(source_cols, row_id_column) {
        return Err(
            ConfigError::RowIdColumnMissing(
                String::from_str(row_id_column),
                String::from_str(source_ident),
            ),
        );
    }
    match founding_id_column {
        Some(fid) => {
            if !has_name(source_cols, fid.as_str()) {
                return Err(
                    ConfigError::FoundingIdColumnMissing(fid.clone(), String::from_str(source_ident)),
                );
            }
        },
        None => {},
    }
    match identity_columns {
        Some(cols) => {
            match find_missing(cols, target_cols) {
                Some(i) => {
                    assert(cols.deep_view()[i as int] == cols@[i as int]@);
                    return Err(
                        ConfigError::IdentityColumnMissing(
                            cols[i].clone(),
                            String::from_str(target_ident),
                        ),
                    );
                },
                None => {},
            }
        },
        None => {},
    }
    match lookup_columns {
        Some(cols) => {
            match find_missing(cols, target_cols) {
                Some(i) => {
                    assert(cols.deep_view()[i as int] == cols@[i as int]@);
                    return Err(
                        ConfigError::LookupColumnMissing(
                            cols[i].clone(),
                            String::from_str(target_ident),
                        ),
                    );
                },
                None => {},
            }
        },
        None => {},
    }
    Ok(())
}

/// What stands against planning with a context, if anything: it has
/// neither identity columns nor lookup keys, or the subtype of its era is
/// neither discrete (`D`) nor numeric (`N`).
pub open spec fn context_fault(strategy: IdentityStrategy, category: char) -> Option<ConfigErrorModel> {
    if strategy is Undefined {
        Some(ConfigErrorModel::NoEntityKeys)
    } else if category != 'D' && category != 'N' {
        Some(ConfigErrorModel::UnsupportedSubtypeCategory(category))
    } else {
        None
    }
}

/// Turns down a context that planning cannot work with.
pub fn check_context(ctx: &PlannerContext) -> (r: Result<(), ConfigError>)
    ensures
        match r {
            Ok(_) => context_fault(ctx.strategy, ctx.era.range_subtype_category) is None,
            Err(e) => Some(e.deep_view()) == context_fault(
                ctx.strategy,
                ctx.era.range_subtype_category,
            ),
        },
{
    if matches!(ctx.strategy, IdentityStrategy::Undefined) {
        return Err(ConfigError::NoEntityKeys);
    }
    let c = ctx.era.range_subtype_category;
    if c != 'D' && c != 'N' {
        return Err(ConfigError::UnsupportedSubtypeCategory(c));
    }
    Ok(())
}

} // verus!
