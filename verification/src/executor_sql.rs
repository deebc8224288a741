use crate::date::{decimal, decimal_chars};
use crate::quoting::{doubled, push_doubled};
use crate::text::{join, join_spec, push_char, text_of_chars};
use vstd::prelude::*;

verus! {

/// A text as an SQL string literal: between single quotes, each single
/// quote within it doubled.
pub open spec fn sql_string(s: Seq<char>) -> Seq<char> {
    seq!['\''] + doubled(s, '\'') + seq!['\'']
}

/// The texts as an SQL array of texts.
pub open spec fn sql_text_array(values: Seq<Seq<char>>) -> Seq<char> {
    if values.len() == 0 {
        "'{}'"@
    } else {
        "ARRAY["@ + join_spec(values.map_values(|v: Seq<char>| sql_string(v)), ","@) + "]"@
    }
}

fn build_sql_string(s: &str) -> (out: String)
    ensures
        out@ == sql_string(s@),
{
    let mut out = String::new();
    push_char(&mut out, '\'');
    push_doubled(&mut out, s, '\'');
    push_char(&mut out, '\'');
    assert(out@ =~= sql_string(s@));
    out
}

/// Writes the texts as an SQL array of texts.
pub fn pg_text_array_literal(values: &Vec<String>) -> (out: String)
    ensures
        out@ == sql_text_array(values.deep_view()),
{
    if values.len() == 0 {
        return String::from_str("'{}'");
    }
    let ghost vm = values.deep_view();
    let mut items: Vec<String> = Vec::new();
    let mut i: usize = 0;
    while i < values.len()
        invariant
            i <= values.len(),
            vm == values.deep_view(),
            items.len() == i,
            forall|j: int| 0 <= j < i ==> (#[trigger] items[j])@ == sql_string(vm[j]),
        decreases values.len() - i,
    {
        items.push(build_sql_string(values[i].as_str()));
        i += 1;
    }
    assert(items.deep_view() =~= vm.map_values(|v: Seq<char>| sql_string(v)));
    let mut out = String::from_str("ARRAY[");
    let body = join(&items, ",");
    out.append(body.as_str());
    out.append("]");
    out
}

/// The parts that the query for the column lists of a target is put
/// together from.
pub struct ColumnQueryParts {
    pub target_oid: Seq<char>,
    pub range_filter: Seq<char>,
    pub vf_filter: Seq<char>,
    pub vu_filter: Seq<char>,
    pub vt_filter: Seq<char>,
    pub identity_arr: Seq<char>,
    pub lookup_arr: Seq<char>,
    pub pk_arr: Seq<char>,
    pub insert_def_arr: Seq<char>,
    pub founding_def_arr: Seq<char>,
    pub nn_def_arr: Seq<char>,
    pub vf_is_distinct: Seq<char>,
    pub vu_is_distinct: Seq<char>,
    pub cffi_vf_is_distinct: Seq<char>,
    pub cffi_vu_is_distinct: Seq<char>,
}

/// The condition that leaves out the column `col`, if there is such a column.
pub open spec fn and_not_column(col: Seq<char>, present: bool) -> Seq<char> {
    if present {
        " AND t.attname <> "@ + sql_string(col)
    } else {
        Seq::empty()
    }
}

/// The condition that a column of the relation `alias` is not `col`; true
/// where there is no such column.
pub open spec fn is_distinct_from(alias: Seq<char>, col: Seq<char>) -> Seq<char> {
    if col.len() > 0 {
        alias + ".attname IS DISTINCT FROM "@ + sql_string(col)
    } else {
        "true"@
    }
}

/// The columns that the query for the column lists goes by.
pub struct ColumnQueryInput {
    pub target_oid: u32,
    pub identity_columns: Seq<Seq<char>>,
    pub lookup_columns: Seq<Seq<char>>,
    pub pk_cols: Seq<Seq<char>>,
    pub insert_defaulted_columns: Seq<Seq<char>>,
    pub founding_defaulted_columns: Seq<Seq<char>>,
    pub not_null_defaulted_cols: Seq<Seq<char>>,
    pub range_col: Seq<char>,
    pub valid_from_col: Seq<char>,
    pub valid_until_col: Seq<char>,
    pub valid_to_col: Option<Seq<char>>,
}

/// The parts of the query for the column lists of a target.
pub open spec fn column_query_parts(q: ColumnQueryInput) -> ColumnQueryParts {
    ColumnQueryParts {
        target_oid: decimal(q.target_oid as nat),
        range_filter: "t.attname <> "@ + sql_string(q.range_col),
        vf_filter: and_not_column(q.valid_from_col, q.valid_from_col.len() > 0),
        vu_filter: and_not_column(q.valid_until_col, q.valid_until_col.len() > 0),
        vt_filter: and_not_column(
            match q.valid_to_col {
                Some(c) => c,
                None => Seq::empty(),
            },
            q.valid_to_col is Some,
        ),
        identity_arr: sql_text_array(q.identity_columns),
        lookup_arr: sql_text_array(q.lookup_columns),
        pk_arr: sql_text_array(q.pk_cols),
        insert_def_arr: sql_text_array(q.insert_defaulted_columns),
        founding_def_arr: sql_text_array(q.founding_defaulted_columns),
        nn_def_arr: sql_text_array(q.not_null_defaulted_cols),
        vf_is_distinct: is_distinct_from("cfi"@, q.valid_from_col),
        vu_is_distinct: is_distinct_from("cfi"@, q.valid_until_col),
        cffi_vf_is_distinct: is_distinct_from("cffi"@, q.valid_from_col),
        cffi_vu_is_distinct: is_distinct_from("cffi"@, q.valid_until_col),
    }
}

/// The query that gives the column lists of a target: the SET clause of an
/// update, and the columns and values of an insertion, for entities that
/// are there and for new ones.
pub open spec fn column_query_text(p: ColumnQueryParts) -> Seq<char> {
    "WITH target_cols AS (\n"@
        + "            SELECT pa.attname::text, pa.atttypid, pa.attgenerated, pa.attidentity, pa.attnum, pa.atthasdef, pa.attnotnull\n"@
        + "            FROM pg_catalog.pg_attribute pa\n"@
        + "            WHERE pa.attrelid = "@
        + p.target_oid
        + "::oid AND pa.attnum > 0 AND NOT pa.attisdropped\n"@
        + "        ),\n"@
        + "        common_data_cols AS (\n"@
        + "            SELECT t.attname, t.atttypid, t.attnotnull, t.atthasdef, t.attnum\n"@
        + "            FROM target_cols t\n"@
        + "            LEFT JOIN pg_attrdef ad ON ad.adrelid = "@
        + p.target_oid
        + "::oid AND ad.adnum = t.attnum\n"@
        + "            WHERE "@
        + p.range_filter
        + p.vf_filter
        + p.vu_filter
        + p.vt_filter
        + "\n"@
        + "              AND t.attname <> ALL("@
        + p.identity_arr
        + "::text[])\n"@
        + "              AND t.attname <> ALL("@
        + p.lookup_arr
        + "::text[])\n"@
        + "              AND t.attname <> ALL("@
        + p.pk_arr
        + "::text[])\n"@
        + "              AND t.attidentity <> 'a'\n"@
        + "              AND t.attgenerated = ''\n"@
        + "              AND COALESCE(pg_get_expr(ad.adbin, "@
        + p.target_oid
        + "::oid), '') NOT ILIKE 'nextval(%'\n"@
        + "        ),\n"@
        + "        all_available_cols AS (\n"@
        + "            SELECT c.attname, c.atttypid, c.attnotnull, c.atthasdef, c.attnum FROM common_data_cols c\n"@
        + "            UNION\n"@
        + "            SELECT u.attname, t.atttypid, t.attnotnull, t.atthasdef, t.attnum\n"@
        + "            FROM unnest("@
        + p.lookup_arr
        + "::text[]) u(attname)\n"@
        + "            JOIN target_cols t ON u.attname = t.attname\n"@
        + "            UNION\n"@
        + "            SELECT u.attname, t.atttypid, t.attnotnull, t.atthasdef, t.attnum\n"@
        + "            FROM unnest("@
        + p.identity_arr
        + "::text[]) u(attname)\n"@
        + "            JOIN target_cols t ON u.attname = t.attname\n"@
        + "            UNION\n"@
        + "            SELECT pk.attname, t.atttypid, t.attnotnull, t.atthasdef, t.attnum\n"@
        + "            FROM unnest("@
        + p.pk_arr
        + "::text[]) pk(attname)\n"@
        + "            JOIN target_cols t ON pk.attname = t.attname\n"@
        + "        ),\n"@
        + "        cols_for_insert AS (\n"@
        + "            SELECT attname, atttypid, attnotnull, atthasdef, attnum FROM all_available_cols WHERE attname <> ALL("@
        + p.insert_def_arr
        + "::text[])\n"@
        + "            UNION\n"@
        + "            SELECT attname, atttypid, attnotnull, atthasdef, attnum FROM all_available_cols WHERE attname = ANY("@
        + p.identity_arr
        + "::text[]) OR attname = ANY("@
        + p.lookup_arr
        + "::text[]) OR attname = ANY("@
        + p.pk_arr
        + "::text[])\n"@
        + "        ),\n"@
        + "        cols_for_founding_insert AS (\n"@
        + "            SELECT attname, atttypid, attnotnull, atthasdef, attnum\n"@
        + "            FROM all_available_cols\n"@
        + "            WHERE attname <> ALL("@
        + p.founding_def_arr
        + "::text[])\n"@
        + "        )\n"@
        + "        SELECT\n"@
        + "            (SELECT string_agg(\n"@
        + "                format(\n"@
        + "                    '%1$I = CASE WHEN p.data ? %2$L THEN %4$s ELSE t.%1$I END',\n"@
        + "                    cdc.attname,\n"@
        + "                    cdc.attname,\n"@
        + "                    format_type(cdc.atttypid, -1),\n"@
        + "                    CASE\n"@
        + "                        WHEN cdc.attname = ANY("@
        + p.nn_def_arr
        + "::text[])\n"@
        + "                        THEN format('COALESCE((p.data->>%1$L)::%2$s, t.%3$I)', cdc.attname, format_type(cdc.atttypid, -1), cdc.attname)\n"@
        + "                        ELSE format('(p.data->>%1$L)::%2$s', cdc.attname, format_type(cdc.atttypid, -1))\n"@
        + "                    END\n"@
        + "                ),\n"@
        + "            ', ') FROM common_data_cols cdc),\n"@
        + "            (SELECT string_agg(format('%I', cfi.attname), ', ' ORDER BY cfi.attnum) FROM cols_for_insert cfi WHERE "@
        + p.vf_is_distinct
        + " AND "@
        + p.vu_is_distinct
        + "),\n"@
        + "            (SELECT string_agg(\n"@
        + "                CASE\n"@
        + "                    WHEN cfi.attnotnull AND cfi.atthasdef THEN\n"@
        + "                        format('COALESCE(jpr_all.%1$I, %2$s)',\n"@
        + "                            cfi.attname,\n"@
        + "                            pg_get_expr(ad.adbin, ad.adrelid)\n"@
        + "                        )\n"@
        + "                    ELSE\n"@
        + "                        format('jpr_all.%I', cfi.attname)\n"@
        + "                END,\n"@
        + "                ', ' ORDER BY cfi.attnum\n"@
        + "             )\n"@
        + "             FROM cols_for_insert cfi\n"@
        + "             LEFT JOIN pg_attrdef ad ON ad.adrelid = "@
        + p.target_oid
        + "::oid\n"@
        + "                                    AND ad.adnum = cfi.attnum\n"@
        + "             WHERE "@
        + p.vf_is_distinct
        + " AND "@
        + p.vu_is_distinct
        + "),\n"@
        + "            (SELECT string_agg(\n"@
        + "                CASE\n"@
        + "                    WHEN cfi.attnotnull AND cfi.atthasdef THEN\n"@
        + "                        format('COALESCE((s.full_data->>%1$L)::%2$s, %3$s)',\n"@
        + "                            cfi.attname,\n"@
        + "                            format_type(cfi.atttypid, -1),\n"@
        + "                            pg_get_expr(ad.adbin, ad.adrelid)\n"@
        + "                        )\n"@
        + "                    ELSE\n"@
        + "                        format('(s.full_data->>%1$L)::%2$s', cfi.attname, format_type(cfi.atttypid, -1))\n"@
        + "                END,\n"@
        + "                ', ' ORDER BY cfi.attnum\n"@
        + "             )\n"@
        + "             FROM cols_for_insert cfi\n"@
        + "             LEFT JOIN pg_attrdef ad ON ad.adrelid = "@
        + p.target_oid
        + "::oid\n"@
        + "                                    AND ad.adnum = cfi.attnum\n"@
        + "             WHERE "@
        + p.vf_is_distinct
        + " AND "@
        + p.vu_is_distinct
        + "),\n"@
        + "            (SELECT string_agg(format('%I', cffi.attname), ', ' ORDER BY cffi.attnum) FROM cols_for_founding_insert cffi WHERE "@
        + p.cffi_vf_is_distinct
        + " AND "@
        + p.cffi_vu_is_distinct
        + "),\n"@
        + "            (SELECT string_agg(\n"@
        + "                CASE\n"@
        + "                    WHEN cffi.attnotnull AND cffi.atthasdef THEN\n"@
        + "                        format('COALESCE((s.full_data->>%1$L)::%2$s, %3$s)',\n"@
        + "                            cffi.attname,\n"@
        + "                            format_type(cffi.atttypid, -1),\n"@
        + "                            pg_get_expr(ad.adbin, ad.adrelid)\n"@
        + "                        )\n"@
        + "                    ELSE\n"@
        + "                        format('(s.full_data->>%1$L)::%2$s', cffi.attname, format_type(cffi.atttypid, -1))\n"@
        + "                END,\n"@
        + "                ', ' ORDER BY cffi.attnum\n"@
        + "             )\n"@
        + "             FROM cols_for_founding_insert cffi\n"@
        + "             LEFT JOIN pg_attrdef ad ON ad.adrelid = "@
        + p.target_oid
        + "::oid\n"@
        + "                                    AND ad.adnum = cffi.attnum\n"@
        + "             WHERE "@
        + p.cffi_vf_is_distinct
        + " AND "@
        + p.cffi_vu_is_distinct
        + ")"@
}

fn build_and_not_column(col: &str, present: bool) -> (out: String)
    ensures
        out@ == and_not_column(col@, present),
{
    if present {
        let mut out = String::from_str(" AND t.attname <> ");
        let lit = build_sql_string(col);
        out.append(lit.as_str());
        out
    } else {
        String::new()
    }
}

fn build_is_distinct_from(alias: &str, col: &str) -> (out: String)
    ensures
        out@ == is_distinct_from(alias@, col@),
{
    if !col.is_empty() {
        let mut out = String::from_str(alias);
        out.append(".attname IS DISTINCT FROM ");
        let lit = build_sql_string(col);
        out.append(lit.as_str());
        out
    } else {
        String::from_str("true")
    }
}

/// Writes the query that gives the column lists of a target.
pub fn build_column_list_cte_query(
    target_oid: u32,
    identity_columns: &Vec<String>,
    lookup_columns: &Vec<String>,
    pk_cols: &Vec<String>,
    insert_defaulted_columns: &Vec<String>,
    founding_defaulted_columns: &Vec<String>,
    not_null_defaulted_cols: &Vec<String>,
    range_col: &str,
    valid_from_col: &str,
    valid_until_col: &str,
    valid_to_col: &Option<String>,
) -> (out: String)
    ensures
        out@ == column_query_text(
            column_query_parts(
                ColumnQueryInput {
                    target_oid,
                    identity_columns: identity_columns.deep_view(),
                    lookup_columns: lookup_columns.deep_view(),
                    pk_cols: pk_cols.deep_view(),
                    insert_defaulted_columns: insert_defaulted_columns.deep_view(),
                    founding_defaulted_columns: founding_defaulted_columns.deep_view(),
                    not_null_defaulted_cols: not_null_defaulted_cols.deep_view(),
                    range_col: range_col@,
                    valid_from_col: valid_from_col@,
                    valid_until_col: valid_until_col@,
                    valid_to_col: valid_to_col.deep_view(),
                },
            ),
        ),
{
    let oid_digits = decimal_chars(target_oid as u64);
    let target_oid = text_of_chars(&oid_digits);
    let identity_arr = pg_text_array_literal(identity_columns);
    let lookup_arr = pg_text_array_literal(lookup_columns);
    let pk_arr = pg_text_array_literal(pk_cols);
    let insert_def_arr = pg_text_array_literal(insert_defaulted_columns);
    let founding_def_arr = pg_text_array_literal(founding_defaulted_columns);
    let nn_def_arr = pg_text_array_literal(not_null_defaulted_cols);
    let mut range_filter = String::from_str("t.attname <> ");
    let range_lit = build_sql_string(range_col);
    range_filter.append(range_lit.as_str());
    let vf_filter = build_and_not_column(valid_from_col, !valid_from_col.is_empty());
    let vu_filter = build_and_not_column(valid_until_col, !valid_until_col.is_empty());
    let vt_filter = match valid_to_col {
        Some(c) => build_and_not_column(c.as_str(), true),
        None => build_and_not_column("", false),
    };
    let vf_is_distinct = build_is_distinct_from("cfi", valid_from_col);
    let vu_is_distinct = build_is_distinct_from("cfi", valid_until_col);
    let cffi_vf_is_distinct = build_is_distinct_from("cffi", valid_from_col);
    let cffi_vu_is_distinct = build_is_distinct_from("cffi", valid_until_col);
    proof {
        crate::string_facts::lemma_empty_literal();
    }
    let mut out = String::from_str("WITH target_cols AS (\n");
    out.append("            SELECT pa.attname::text, pa.atttypid, pa.attgenerated, pa.attidentity, pa.attnum, pa.atthasdef, pa.attnotnull\n");
    out.append("            FROM pg_catalog.pg_attribute pa\n");
    out.append("            WHERE pa.attrelid = ");
    out.append(target_oid.as_str());
    out.append("::oid AND pa.attnum > 0 AND NOT pa.attisdropped\n");
    out.append("        ),\n");
    out.append("        common_data_cols AS (\n");
    out.append("            SELECT t.attname, t.atttypid, t.attnotnull, t.atthasdef, t.attnum\n");
    out.append("            FROM target_cols t\n");
    out.append("            LEFT JOIN pg_attrdef ad ON ad.adrelid = ");
    out.append(target_oid.as_str());
    out.append("::oid AND ad.adnum = t.attnum\n");
    out.append("            WHERE ");
    out.append(range_filter.as_str());
    out.append(vf_filter.as_str());
    out.append(vu_filter.as_str());
    out.append(vt_filter.as_str());
    out.append("\n");
    out.append("              AND t.attname <> ALL(");
    out.append(identity_arr.as_str());
    out.append("::text[])\n");
    out.append("              AND t.attname <> ALL(");
    out.append(lookup_arr.as_str());
    out.append("::text[])\n");
    out.append("              AND t.attname <> ALL(");
    out.append(pk_arr.as_str());
    out.append("::text[])\n");
    out.append("              AND t.attidentity <> 'a'\n");
    out.append("              AND t.attgenerated = ''\n");
    out.append("              AND COALESCE(pg_get_expr(ad.adbin, ");
    out.append(target_oid.as_str());
    out.append("::oid), '') NOT ILIKE 'nextval(%'\n");
    out.append("        ),\n");
    out.append("        all_available_cols AS (\n");
    out.append("            SELECT c.attname, c.atttypid, c.attnotnull, c.atthasdef, c.attnum FROM common_data_cols c\n");
    out.append("            UNION\n");
    out.append("            SELECT u.attname, t.atttypid, t.attnotnull, t.atthasdef, t.attnum\n");
    out.append("            FROM unnest(");
    out.append(lookup_arr.as_str());
    out.append("::text[]) u(attname)\n");
    out.append("            JOIN target_cols t ON u.attname = t.attname\n");
    out.append("            UNION\n");
    out.append("            SELECT u.attname, t.atttypid, t.attnotnull, t.atthasdef, t.attnum\n");
    out.append("            FROM unnest(");
    out.append(identity_arr.as_str());
    out.append("::text[]) u(attname)\n");
    out.append("            JOIN target_cols t ON u.attname = t.attname\n");
    out.append("            UNION\n");
    out.append("            SELECT pk.attname, t.atttypid, t.attnotnull, t.atthasdef, t.attnum\n");
    out.append("            FROM unnest(");
    out.append(pk_arr.as_str());
    out.append("::text[]) pk(attname)\n");
    out.append("            JOIN target_cols t ON pk.attname = t.attname\n");
    out.append("        ),\n");
    out.append("        cols_for_insert AS (\n");
    out.append("            SELECT attname, atttypid, attnotnull, atthasdef, attnum FROM all_available_cols WHERE attname <> ALL(");
    out.append(insert_def_arr.as_str());
    out.append("::text[])\n");
    out.append("            UNION\n");
    out.append("            SELECT attname, atttypid, attnotnull, atthasdef, attnum FROM all_available_cols WHERE attname = ANY(");
    out.append(identity_arr.as_str());
    out.append("::text[]) OR attname = ANY(");
    out.append(lookup_arr.as_str());
    out.append("::text[]) OR attname = ANY(");
    out.append(pk_arr.as_str());
    out.append("::text[])\n");
    out.append("        ),\n");
    out.append("        cols_for_founding_insert AS (\n");
    out.append("            SELECT attname, atttypid, attnotnull, atthasdef, attnum\n");
    out.append("            FROM all_available_cols\n");
    out.append("            WHERE attname <> ALL(");
    out.append(founding_def_arr.as_str());
    out.append("::text[])\n");
    out.append("        )\n");
    out.append("        SELECT\n");
    out.append("            (SELECT string_agg(\n");
    out.append("                format(\n");
    out.append("                    '%1$I = CASE WHEN p.data ? %2$L THEN %4$s ELSE t.%1$I END',\n");
    out.append("                    cdc.attname,\n");
    out.append("                    cdc.attname,\n");
    out.append("                    format_type(cdc.atttypid, -1),\n");
    out.append("                    CASE\n");
    out.append("                        WHEN cdc.attname = ANY(");
    out.append(nn_def_arr.as_str());
    out.append("::text[])\n");
    out.append("                        THEN format('COALESCE((p.data->>%1$L)::%2$s, t.%3$I)', cdc.attname, format_type(cdc.atttypid, -1), cdc.attname)\n");
    out.append("                        ELSE format('(p.data->>%1$L)::%2$s', cdc.attname, format_type(cdc.atttypid, -1))\n");
    out.append("                    END\n");
    out.append("                ),\n");
    out.append("            ', ') FROM common_data_cols cdc),\n");
    out.append("            (SELECT string_agg(format('%I', cfi.attname), ', ' ORDER BY cfi.attnum) FROM cols_for_insert cfi WHERE ");
    out.append(vf_is_distinct.as_str());
    out.append(" AND ");
    out.append(vu_is_distinct.as_str());
    out.append("),\n");
    out.append("            (SELECT string_agg(\n");
    out.append("                CASE\n");
    out.append("                    WHEN cfi.attnotnull AND cfi.atthasdef THEN\n");
    out.append("                        format('COALESCE(jpr_all.%1$I, %2$s)',\n");
    out.append("                            cfi.attname,\n");
    out.append("                            pg_get_expr(ad.adbin, ad.adrelid)\n");
    out.append("                        )\n");
    out.append("                    ELSE\n");
    out.append("                        format('jpr_all.%I', cfi.attname)\n");
    out.append("                END,\n");
    out.append("                ', ' ORDER BY cfi.attnum\n");
    out.append("             )\n");
    out.append("             FROM cols_for_insert cfi\n");
    out.append("             LEFT JOIN pg_attrdef ad ON ad.adrelid = ");
    out.append(target_oid.as_str());
    out.append("::oid\n");
    out.append("                                    AND ad.adnum = cfi.attnum\n");
    out.append("             WHERE ");
    out.append(vf_is_distinct.as_str());
    out.append(" AND ");
    out.append(vu_is_distinct.as_str());
    out.append("),\n");
    out.append("            (SELECT string_agg(\n");
    out.append("                CASE\n");
    out.append("                    WHEN cfi.attnotnull AND cfi.atthasdef THEN\n");
    out.append("                        format('COALESCE((s.full_data->>%1$L)::%2$s, %3$s)',\n");
    out.append("                            cfi.attname,\n");
    out.append("                            format_type(cfi.atttypid, -1),\n");
    out.append("                            pg_get_expr(ad.adbin, ad.adrelid)\n");
    out.append("                        )\n");
    out.append("                    ELSE\n");
    out.append("                        format('(s.full_data->>%1$L)::%2$s', cfi.attname, format_type(cfi.atttypid, -1))\n");
    out.append("                END,\n");
    out.append("                ', ' ORDER BY cfi.attnum\n");
    out.append("             )\n");
    out.append("             FROM cols_for_insert cfi\n");
    out.append("             LEFT JOIN pg_attrdef ad ON ad.adrelid = ");
    out.append(target_oid.as_str());
    out.append("::oid\n");
    out.append("                                    AND ad.adnum = cfi.attnum\n");
    out.append("             WHERE ");
    out.append(vf_is_distinct.as_str());
    out.append(" AND ");
    out.append(vu_is_distinct.as_str());
    out.append("),\n");
    out.append("            (SELECT string_agg(format('%I', cffi.attname), ', ' ORDER BY cffi.attnum) FROM cols_for_founding_insert cffi WHERE ");
    out.append(cffi_vf_is_distinct.as_str());
    out.append(" AND ");
    out.append(cffi_vu_is_distinct.as_str());
    out.append("),\n");
    out.append("            (SELECT string_agg(\n");
    out.append("                CASE\n");
    out.append("                    WHEN cffi.attnotnull AND cffi.atthasdef THEN\n");
    out.append("                        format('COALESCE((s.full_data->>%1$L)::%2$s, %3$s)',\n");
    out.append("                            cffi.attname,\n");
    out.append("                            format_type(cffi.atttypid, -1),\n");
    out.append("                            pg_get_expr(ad.adbin, ad.adrelid)\n");
    out.append("                        )\n");
    out.append("                    ELSE\n");
    out.append("                        format('(s.full_data->>%1$L)::%2$s', cffi.attname, format_type(cffi.atttypid, -1))\n");
    out.append("                END,\n");
    out.append("                ', ' ORDER BY cffi.attnum\n");
    out.append("             )\n");
    out.append("             FROM cols_for_founding_insert cffi\n");
    out.append("             LEFT JOIN pg_attrdef ad ON ad.adrelid = ");
    out.append(target_oid.as_str());
    out.append("::oid\n");
    out.append("                                    AND ad.adnum = cffi.attnum\n");
    out.append("             WHERE ");
    out.append(cffi_vf_is_distinct.as_str());
    out.append(" AND ");
    out.append(cffi_vu_is_distinct.as_str());
    out.append(")");
    out
}

} // verus!
