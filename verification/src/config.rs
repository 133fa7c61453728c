//! Which configuration texts are handed to sqruff.
//!
//! sqruff panics on a text that is no INI file, and on a setting whose value is not of
//! the kind that it wants; of some rule options only once the rules are loaded. A plain
//! configuration holds nothing but settings that are known to be read, each with a value
//! of its kind. Other texts, among them some that sqruff would read, are not handed over.
use crate::sqruff_adapter::{dialect_named, dialect_of, lowered, to_lower};
use crate::text::{
    chars_of, is_prefix, lemma_run_len, lemma_run_len_is, lines, rows, run_len, spells,
    split_lines, subvec, text_of, trim_end, trim_start, trimmed_len, white, white_run,
};
use vstd::prelude::*;
use vstd::slice::slice_subrange;

verus! {

/// The sections of a plain configuration.
#[derive(Debug, Clone, Copy, PartialEq, Eq)]
pub enum Section {
    /// Before the first header.
    Start,
    /// `[sqruff]`.
    Core,
    /// `[sqruff:indentation]`.
    Indentation,
    /// `[sqruff:rules]`.
    Rules,
    /// `[sqruff:rules:NAME]`.
    Rule,
    /// `[sqruff:layout:type:NAME]`.
    Layout,
}

// ---------------------------------------------------------------------------
// Kinds of values
// ---------------------------------------------------------------------------

/// Being an ASCII letter.
pub open spec fn is_letter(c: char) -> bool {
    'a' <= c <= 'z' || 'A' <= c <= 'Z'
}

/// Being an ASCII digit.
pub open spec fn is_digit(c: char) -> bool {
    '0' <= c <= '9'
}

/// A value that is read as text: it starts with a letter, and is none of the words that
/// stand for a truth value, for a number or for nothing.
pub open spec fn is_text_value(v: Seq<char>) -> bool {
    let low = lowered(v);
    &&& v.len() > 0
    &&& is_letter(v[0])
    &&& low != "true"@
    &&& low != "false"@
    &&& low != "none"@
    &&& low != "inf"@
    &&& low != "infinity"@
    &&& low != "nan"@
}

/// `true` or `false`.
pub open spec fn is_switch_value(v: Seq<char>) -> bool {
    lowered(v) == "true"@ || lowered(v) == "false"@
}

/// `none`.
pub open spec fn is_none_value(v: Seq<char>) -> bool {
    lowered(v) == "none"@
}

/// A number of up to four digits.
pub open spec fn is_number_value(v: Seq<char>) -> bool {
    1 <= v.len() <= 4 && forall|i: int| 0 <= i < v.len() ==> is_digit(#[trigger] v[i])
}

/// A number of up to nine digits.
pub open spec fn is_count_value(v: Seq<char>) -> bool {
    1 <= v.len() <= 9 && forall|i: int| 0 <= i < v.len() ==> is_digit(#[trigger] v[i])
}

/// A list of file extensions: it starts with a dot and a letter, as no number does.
pub open spec fn is_extensions_value(v: Seq<char>) -> bool {
    v.len() > 1 && v[0] == '.' && is_letter(v[1])
}

/// A way of spacing an element.
pub open spec fn is_spacing_value(v: Seq<char>) -> bool {
    ||| v == "single"@
    ||| v == "single:inline"@
    ||| v == "touch"@
    ||| v == "touch:inline"@
    ||| v == "any"@
}

/// A place of an element on its line.
pub open spec fn is_line_position_value(v: Seq<char>) -> bool {
    ||| v == "leading"@
    ||| v == "leading:strict"@
    ||| v == "trailing"@
    ||| v == "trailing:strict"@
    ||| v == "alone"@
    ||| v == "alone:strict"@
}

/// Whether `v` is read as text.
fn text_value(v: &Vec<char>) -> (b: bool)
    ensures
        b == is_text_value(v@),
{
    if v.len() == 0 || !(('a' <= v[0] && v[0] <= 'z') || ('A' <= v[0] && v[0] <= 'Z')) {
        return false;
    }
    let low = to_lower(text_of(v.as_slice()).as_str());
    !spells(&low, "true") && !spells(&low, "false") && !spells(&low, "none") && !spells(
        &low,
        "inf",
    ) && !spells(&low, "infinity") && !spells(&low, "nan")
}

/// Whether `v` is `true` or `false`.
fn switch_value(v: &Vec<char>) -> (b: bool)
    ensures
        b == is_switch_value(v@),
{
    let low = to_lower(text_of(v.as_slice()).as_str());
    spells(&low, "true") || spells(&low, "false")
}

/// Whether `v` is `none`.
fn none_value(v: &Vec<char>) -> (b: bool)
    ensures
        b == is_none_value(v@),
{
    spells(&to_lower(text_of(v.as_slice()).as_str()), "none")
}

/// Whether `v` is a number of up to `most` digits.
fn digits_value(v: &Vec<char>, most: usize) -> (b: bool)
    ensures
        b == (1 <= v.len() <= most && forall|i: int|
            0 <= i < v.len() ==> is_digit(#[trigger] v@[i])),
{
    if v.len() == 0 || v.len() > most {
        return false;
    }
    for i in 0..v.len()
        invariant
            forall|j: int| 0 <= j < i ==> is_digit(#[trigger] v@[j]),
    {
        if !('0' <= v[i] && v[i] <= '9') {
            assert(!is_digit(v@[i as int]));
            return false;
        }
    }
    true
}

/// Whether `v` is a number of up to four digits.
fn number_value(v: &Vec<char>) -> (b: bool)
    ensures
        b == is_number_value(v@),
{
    digits_value(v, 4)
}

/// Whether `v` is a number of up to nine digits.
fn count_value(v: &Vec<char>) -> (b: bool)
    ensures
        b == is_count_value(v@),
{
    digits_value(v, 9)
}

/// Whether `v` is a list of file extensions.
fn extensions_value(v: &Vec<char>) -> (b: bool)
    ensures
        b == is_extensions_value(v@),
{
    v.len() > 1 && v[0] == '.' && (('a' <= v[1] && v[1] <= 'z') || ('A' <= v[1] && v[1] <= 'Z'))
}

/// Whether `v` is a way of spacing an element.
fn spacing_value(v: &Vec<char>) -> (b: bool)
    ensures
        b == is_spacing_value(v@),
{
    spells(v, "single") || spells(v, "single:inline") || spells(v, "touch") || spells(
        v,
        "touch:inline",
    ) || spells(v, "any")
}

/// Whether `v` is a place of an element on its line.
fn line_position_value(v: &Vec<char>) -> (b: bool)
    ensures
        b == is_line_position_value(v@),
{
    spells(v, "leading") || spells(v, "leading:strict") || spells(v, "trailing") || spells(
        v,
        "trailing:strict",
    ) || spells(v, "alone") || spells(v, "alone:strict")
}

// ---------------------------------------------------------------------------
// Settings
// ---------------------------------------------------------------------------

/// Being a rule option that is on or off.
pub open spec fn is_switch(key: Seq<char>) -> bool {
    ||| key == "force_enable"@
    ||| key == "prefer_quoted_identifiers"@
    ||| key == "prefer_quoted_keywords"@
    ||| key == "allow_space_in_identifier"@
    ||| key == "multiline_newline"@
    ||| key == "require_final_semicolon"@
    ||| key == "match_source"@
    ||| key == "prefer_count_1"@
    ||| key == "prefer_count_0"@
    ||| key == "ignore_comment_lines"@
    ||| key == "ignore_comment_clauses"@
}

/// Whether `key` is a rule option that is on or off.
fn names_switch(key: &Vec<char>) -> (b: bool)
    ensures
        b == is_switch(key@),
{
    spells(key, "force_enable")
        || spells(key, "prefer_quoted_identifiers")
        || spells(key, "prefer_quoted_keywords")
        || spells(key, "allow_space_in_identifier")
        || spells(key, "multiline_newline")
        || spells(key, "require_final_semicolon")
        || spells(key, "match_source")
        || spells(key, "prefer_count_1")
        || spells(key, "prefer_count_0")
        || spells(key, "ignore_comment_lines")
        || spells(key, "ignore_comment_clauses")
}

/// Being a rule option that is named by a word.
pub open spec fn is_policy(key: Seq<char>) -> bool {
    ||| key == "capitalisation_policy"@
    ||| key == "extended_capitalisation_policy"@
    ||| key == "unquoted_identifiers_policy"@
    ||| key == "quoted_identifiers_policy"@
    ||| key == "single_table_references"@
    ||| key == "wildcard_policy"@
    ||| key == "select_clause_trailing_comma"@
    ||| key == "forbid_subquery_in"@
    ||| key == "alias_case_check"@
    ||| key == "fully_qualify_join_types"@
    ||| key == "preferred_not_equal_style"@
    ||| key == "preferred_first_table_in_join_clause"@
}

/// Whether `key` is a rule option that is named by a word.
fn names_policy(key: &Vec<char>) -> (b: bool)
    ensures
        b == is_policy(key@),
{
    spells(key, "capitalisation_policy")
        || spells(key, "extended_capitalisation_policy")
        || spells(key, "unquoted_identifiers_policy")
        || spells(key, "quoted_identifiers_policy")
        || spells(key, "single_table_references")
        || spells(key, "wildcard_policy")
        || spells(key, "select_clause_trailing_comma")
        || spells(key, "forbid_subquery_in")
        || spells(key, "alias_case_check")
        || spells(key, "fully_qualify_join_types")
        || spells(key, "preferred_not_equal_style")
        || spells(key, "preferred_first_table_in_join_clause")
}

/// Being a rule option that lists words.
pub open spec fn is_word_list(key: Seq<char>) -> bool {
    ||| key == "ignore_words"@
    ||| key == "blocked_words"@
}

/// Whether `key` is a rule option that lists words.
fn names_word_list(key: &Vec<char>) -> (b: bool)
    ensures
        b == is_word_list(key@),
{
    spells(key, "ignore_words")
        || spells(key, "blocked_words")
}

/// Being a rule option that is a number.
pub open spec fn is_number(key: Seq<char>) -> bool {
    ||| key == "min_alias_length"@
    ||| key == "max_alias_length"@
    ||| key == "maximum_empty_lines_between_statements"@
    ||| key == "maximum_empty_lines_inside_statements"@
}

/// Whether `key` is a rule option that is a number.
fn names_number(key: &Vec<char>) -> (b: bool)
    ensures
        b == is_number(key@),
{
    spells(key, "min_alias_length")
        || spells(key, "max_alias_length")
        || spells(key, "maximum_empty_lines_between_statements")
        || spells(key, "maximum_empty_lines_inside_statements")
}

/// Being an indentation option that is on or off.
pub open spec fn is_indent_switch(key: Seq<char>) -> bool {
    ||| key == "indented_joins"@
    ||| key == "indented_ctes"@
    ||| key == "indented_using_on"@
    ||| key == "indented_on_contents"@
    ||| key == "indented_then"@
    ||| key == "indented_then_contents"@
    ||| key == "allow_implicit_indents"@
    ||| key == "template_blocks_indent"@
    ||| key == "hanging_indents"@
}

/// Whether `key` is an indentation option that is on or off.
fn names_indent_switch(key: &Vec<char>) -> (b: bool)
    ensures
        b == is_indent_switch(key@),
{
    spells(key, "indented_joins")
        || spells(key, "indented_ctes")
        || spells(key, "indented_using_on")
        || spells(key, "indented_on_contents")
        || spells(key, "indented_then")
        || spells(key, "indented_then_contents")
        || spells(key, "allow_implicit_indents")
        || spells(key, "template_blocks_indent")
        || spells(key, "hanging_indents")
}

/// Being a setting that lists names.
pub open spec fn is_core_list(key: Seq<char>) -> bool {
    ||| key == "rules"@
    ||| key == "exclude_rules"@
    ||| key == "warnings"@
    ||| key == "ignore"@
}

/// Whether `key` is a setting that lists names.
fn names_core_list(key: &Vec<char>) -> (b: bool)
    ensures
        b == is_core_list(key@),
{
    spells(key, "rules")
        || spells(key, "exclude_rules")
        || spells(key, "warnings")
        || spells(key, "ignore")
}

/// Being a setting that is a number and that no rule reads.
pub open spec fn is_core_number(key: Seq<char>) -> bool {
    ||| key == "verbose"@
    ||| key == "output_line_length"@
    ||| key == "runaway_limit"@
    ||| key == "large_file_skip_char_limit"@
    ||| key == "large_file_skip_byte_limit"@
}

/// Whether `key` is a setting that is a number and that no rule reads.
fn names_core_number(key: &Vec<char>) -> (b: bool)
    ensures
        b == is_core_number(key@),
{
    spells(key, "verbose")
        || spells(key, "output_line_length")
        || spells(key, "runaway_limit")
        || spells(key, "large_file_skip_char_limit")
        || spells(key, "large_file_skip_byte_limit")
}

/// Being a setting that is on or off.
pub open spec fn is_core_switch(key: Seq<char>) -> bool {
    ||| key == "nocolor"@
    ||| key == "disable_noqa"@
    ||| key == "warn_unused_ignores"@
    ||| key == "ignore_templated_areas"@
    ||| key == "fix_even_unparsable"@
}

/// Whether `key` is a setting that is on or off.
fn names_core_switch(key: &Vec<char>) -> (b: bool)
    ensures
        b == is_core_switch(key@),
{
    spells(key, "nocolor")
        || spells(key, "disable_noqa")
        || spells(key, "warn_unused_ignores")
        || spells(key, "ignore_templated_areas")
        || spells(key, "fix_even_unparsable")
}

/// Being an option that says how an element is spaced.
pub open spec fn is_spacing(key: Seq<char>) -> bool {
    ||| key == "spacing_before"@
    ||| key == "spacing_after"@
    ||| key == "spacing_within"@
}

/// Whether `key` is an option that says how an element is spaced.
fn names_spacing(key: &Vec<char>) -> (b: bool)
    ensures
        b == is_spacing(key@),
{
    spells(key, "spacing_before")
        || spells(key, "spacing_after")
        || spells(key, "spacing_within")
}

/// Being an element whose layout has a section in the default configuration.
pub open spec fn is_laid_out(key: Seq<char>) -> bool {
    ||| key == "comma"@
    ||| key == "binary_operator"@
    ||| key == "statement_terminator"@
    ||| key == "end_of_file"@
    ||| key == "set_operator"@
    ||| key == "start_bracket"@
    ||| key == "end_bracket"@
    ||| key == "start_square_bracket"@
    ||| key == "end_square_bracket"@
    ||| key == "start_angle_bracket"@
    ||| key == "end_angle_bracket"@
    ||| key == "casting_operator"@
    ||| key == "slice"@
    ||| key == "dot"@
    ||| key == "comparison_operator"@
    ||| key == "assignment_operator"@
    ||| key == "object_reference"@
    ||| key == "numeric_literal"@
    ||| key == "sign_indicator"@
    ||| key == "tilde"@
    ||| key == "function_name"@
    ||| key == "function_contents"@
    ||| key == "function_parameter_list"@
    ||| key == "date_part_week"@
    ||| key == "array_type"@
    ||| key == "typed_array_literal"@
    ||| key == "sized_array_type"@
    ||| key == "struct_type"@
    ||| key == "bracketed_arguments"@
    ||| key == "typed_struct_literal"@
    ||| key == "semi_structured_expression"@
    ||| key == "array_accessor"@
    ||| key == "colon"@
    ||| key == "colon_delimiter"@
    ||| key == "path_segment"@
    ||| key == "sql_conf_option"@
    ||| key == "sqlcmd_operator"@
    ||| key == "comment"@
    ||| key == "inline_comment"@
    ||| key == "block_comment"@
    ||| key == "pattern_expression"@
    ||| key == "placeholder"@
    ||| key == "common_table_expression"@
    ||| key == "select_clause"@
    ||| key == "where_clause"@
    ||| key == "from_clause"@
    ||| key == "join_clause"@
    ||| key == "groupby_clause"@
    ||| key == "orderby_clause"@
    ||| key == "having_clause"@
    ||| key == "limit_clause"@
    ||| key == "template_loop"@
}

/// Whether `key` is an element whose layout has a section in the default configuration.
fn names_laid_out(key: &Vec<char>) -> (b: bool)
    ensures
        b == is_laid_out(key@),
{
    spells(key, "comma")
        || spells(key, "binary_operator")
        || spells(key, "statement_terminator")
        || spells(key, "end_of_file")
        || spells(key, "set_operator")
        || spells(key, "start_bracket")
        || spells(key, "end_bracket")
        || spells(key, "start_square_bracket")
        || spells(key, "end_square_bracket")
        || spells(key, "start_angle_bracket")
        || spells(key, "end_angle_bracket")
        || spells(key, "casting_operator")
        || spells(key, "slice")
        || spells(key, "dot")
        || spells(key, "comparison_operator")
        || spells(key, "assignment_operator")
        || spells(key, "object_reference")
        || spells(key, "numeric_literal")
        || spells(key, "sign_indicator")
        || spells(key, "tilde")
        || spells(key, "function_name")
        || spells(key, "function_contents")
        || spells(key, "function_parameter_list")
        || spells(key, "date_part_week")
        || spells(key, "array_type")
        || spells(key, "typed_array_literal")
        || spells(key, "sized_array_type")
        || spells(key, "struct_type")
        || spells(key, "bracketed_arguments")
        || spells(key, "typed_struct_literal")
        || spells(key, "semi_structured_expression")
        || spells(key, "array_accessor")
        || spells(key, "colon")
        || spells(key, "colon_delimiter")
        || spells(key, "path_segment")
        || spells(key, "sql_conf_option")
        || spells(key, "sqlcmd_operator")
        || spells(key, "comment")
        || spells(key, "inline_comment")
        || spells(key, "block_comment")
        || spells(key, "pattern_expression")
        || spells(key, "placeholder")
        || spells(key, "common_table_expression")
        || spells(key, "select_clause")
        || spells(key, "where_clause")
        || spells(key, "from_clause")
        || spells(key, "join_clause")
        || spells(key, "groupby_clause")
        || spells(key, "orderby_clause")
        || spells(key, "having_clause")
        || spells(key, "limit_clause")
        || spells(key, "template_loop")
}

/// A setting of the section `[sqruff]` that is known to be read.
pub open spec fn is_core_setting(key: Seq<char>, v: Seq<char>) -> bool {
    ||| key == "dialect"@ && dialect_named(v) is Some
    ||| is_core_list(key) && (is_text_value(v) || is_none_value(v))
    ||| key == "templater"@ && is_text_value(v)
    ||| key == "max_line_length"@ && is_number_value(v)
    ||| is_core_number(key) && is_count_value(v)
    ||| is_core_switch(key) && is_switch_value(v)
    ||| key == "encoding"@ && is_text_value(v)
    ||| key == "sql_file_exts"@ && is_extensions_value(v)
}

/// A setting of the section `[sqruff:indentation]` that is known to be read.
pub open spec fn is_indentation_setting(key: Seq<char>, v: Seq<char>) -> bool {
    ||| is_indent_switch(key) && is_switch_value(v)
    ||| key == "tab_space_size"@ && is_number_value(v)
    ||| key == "indent_unit"@ && (v == "space"@ || v == "tab"@)
    ||| key == "trailing_comments"@ && (v == "before"@ || v == "after"@)
}

/// A rule option that is known to be read, whichever rule it is for.
pub open spec fn is_rule_setting(key: Seq<char>, v: Seq<char>) -> bool {
    ||| is_switch(key) && is_switch_value(v)
    ||| is_policy(key) && is_text_value(v)
    ||| is_word_list(key) && (is_text_value(v) || is_none_value(v))
    ||| is_number(key) && is_number_value(v)
    ||| key == "aliasing"@ && (v == "explicit"@ || v == "implicit"@)
    ||| key == "group_by_and_order_by_style"@ && (v == "consistent"@ || v == "explicit"@ || v
        == "implicit"@)
    ||| key == "preferred_quoted_literal_style"@ && (v == "consistent"@ || v == "single_quotes"@
        || v == "double_quotes"@)
    ||| key == "preferred_type_casting_style"@ && (v == "consistent"@ || v == "cast"@ || v
        == "convert"@ || v == "shorthand"@)
}

/// An option of the section `[sqruff:rules]` that is known to be read.
pub open spec fn is_shared_setting(key: Seq<char>, v: Seq<char>) -> bool {
    ||| key == "allow_scalar"@ && is_switch_value(v)
    ||| key == "single_table_references"@ && is_text_value(v)
    ||| key == "unquoted_identifiers_policy"@ && is_text_value(v)
}

/// A layout option that is known to be read.
pub open spec fn is_layout_setting(key: Seq<char>, v: Seq<char>) -> bool {
    ||| is_spacing(key) && is_spacing_value(v)
    ||| key == "line_position"@ && is_line_position_value(v)
}

/// A setting that is known to be read in the given section.
pub open spec fn is_setting(section: Section, key: Seq<char>, v: Seq<char>) -> bool {
    match section {
        Section::Start => false,
        Section::Core => is_core_setting(key, v),
        Section::Indentation => is_indentation_setting(key, v),
        Section::Rules => is_shared_setting(key, v),
        Section::Rule => is_rule_setting(key, v),
        Section::Layout => is_layout_setting(key, v),
    }
}

/// Whether the setting is known to be read in the given section.
fn known_setting(section: Section, key: &Vec<char>, v: &Vec<char>) -> (b: bool)
    ensures
        b == is_setting(section, key@, v@),
{
    match section {
        Section::Start => false,
        Section::Core => (spells(key, "dialect") && names_dialect(v)) || (names_core_list(key) && (
        text_value(v) || none_value(v))) || (spells(key, "templater") && text_value(v)) || (spells(
            key,
            "max_line_length",
        ) && number_value(v)) || (names_core_number(key) && count_value(v)) || (names_core_switch(key)
            && switch_value(v)) || (spells(key, "encoding") && text_value(v)) || (spells(
            key,
            "sql_file_exts",
        ) && extensions_value(v)),
        Section::Indentation => (names_indent_switch(key) && switch_value(v)) || (spells(
            key,
            "tab_space_size",
        ) && number_value(v)) || (spells(key, "indent_unit") && (spells(v, "space") || spells(
            v,
            "tab",
        ))) || (spells(key, "trailing_comments") && (spells(v, "before") || spells(v, "after"))),
        Section::Rules => (spells(key, "allow_scalar") && switch_value(v)) || ((spells(
            key,
            "single_table_references",
        ) || spells(key, "unquoted_identifiers_policy")) && text_value(v)),
        Section::Layout => (names_spacing(key) && spacing_value(v)) || (spells(
            key,
            "line_position",
        ) && line_position_value(v)),
        Section::Rule => (names_switch(key) && switch_value(v)) || (names_policy(key)
            && text_value(v)) || (names_word_list(key) && (text_value(v) || none_value(v))) || (
        names_number(key) && number_value(v)) || (spells(key, "aliasing") && (spells(v, "explicit")
            || spells(v, "implicit"))) || (spells(key, "group_by_and_order_by_style") && (spells(
            v,
            "consistent",
        ) || spells(v, "explicit") || spells(v, "implicit"))) || (spells(
            key,
            "preferred_quoted_literal_style",
        ) && (spells(v, "consistent") || spells(v, "single_quotes") || spells(v, "double_quotes")))
            || (spells(key, "preferred_type_casting_style") && (spells(v, "consistent") || spells(
            v,
            "cast",
        ) || spells(v, "convert") || spells(v, "shorthand"))),
    }
}

/// Whether `v` is the lower-case name of a dialect.
fn names_dialect(v: &Vec<char>) -> (b: bool)
    ensures
        b == (dialect_named(v@) is Some),
{
    dialect_of(v).is_some()
}

// ---------------------------------------------------------------------------
// Lines
// ---------------------------------------------------------------------------

/// `line` without the white space at its ends.
pub open spec fn trimmed(line: Seq<char>) -> Seq<char> {
    trim_end(trim_start(line))
}

/// Being anything but an equals sign.
pub open spec fn not_equals() -> spec_fn(char) -> bool {
    |c: char| c != '='
}

/// A character of a rule's name: a lower-case letter, a dot or an underscore.
pub open spec fn is_name_char(c: char) -> bool {
    'a' <= c <= 'z' || c == '.' || c == '_'
}

/// What follows `start` in `t`, if `t` starts with it.
pub open spec fn after(t: Seq<char>, start: Seq<char>) -> Option<Seq<char>> {
    if start.is_prefix_of(t) {
        Some(t.skip(start.len() as int))
    } else {
        None
    }
}

/// What a header holds behind its first colon: `rules` in `[sqruff:rules]`.
pub open spec fn header_path(t: Seq<char>) -> Option<Seq<char>> {
    let inner = match after(t, "[sqruff:"@) {
        Some(rest) => Some(rest),
        None => after(t, "[sqlfluff:"@),
    };
    match inner {
        Some(rest) if rest.len() > 0 && rest.last() == ']' => Some(rest.drop_last()),
        _ => None,
    }
}

/// A name that a rule's section can have. The three options that all rules share are no
/// such names: a section in place of one of them would hide it.
pub open spec fn is_rule_name(name: Seq<char>) -> bool {
    &&& name.len() > 0
    &&& forall|i: int| 0 <= i < name.len() ==> is_name_char(#[trigger] name[i])
    &&& name != "allow_scalar"@
    &&& name != "single_table_references"@
    &&& name != "unquoted_identifiers_policy"@
}

/// The section with the given path.
pub open spec fn section_at(path: Seq<char>) -> Option<Section> {
    if path == "indentation"@ {
        Some(Section::Indentation)
    } else if path == "rules"@ {
        Some(Section::Rules)
    } else if after(path, "rules:"@) matches Some(name) && is_rule_name(name) {
        Some(Section::Rule)
    } else if after(path, "layout:type:"@) matches Some(name) && is_laid_out(name) {
        Some(Section::Layout)
    } else {
        None
    }
}

/// The section that a line opens.
pub open spec fn opened(line: Seq<char>) -> Option<Section> {
    let t = trimmed(line);
    if t == "[sqruff]"@ || t == "[sqlfluff]"@ {
        Some(Section::Core)
    } else {
        match header_path(t) {
            Some(path) => section_at(path),
            None => None,
        }
    }
}

/// A line that is blank or a comment.
pub open spec fn is_skipped(line: Seq<char>) -> bool {
    let t = trimmed(line);
    t.len() == 0 || t[0] == '#' || t[0] == ';'
}

/// A line that holds a known setting and nothing else.
pub open spec fn is_setting_line(section: Section, line: Seq<char>) -> bool {
    let t = trimmed(line);
    let n = run_len(t, not_equals()) as int;
    &&& n < t.len()
    &&& !t.contains('#')
    &&& !t.contains(';')
    &&& is_setting(section, trim_end(t.take(n)), trim_start(t.skip(n + 1)))
}

/// The section in which the lines end.
pub open spec fn section_after(ls: Seq<Seq<char>>) -> Section
    decreases ls.len(),
{
    if ls.len() == 0 {
        Section::Start
    } else {
        match opened(ls.last()) {
            Some(section) => section,
            None => section_after(ls.drop_last()),
        }
    }
}

/// A line of a plain configuration, in the given section.
pub open spec fn is_plain_line(section: Section, line: Seq<char>) -> bool {
    is_skipped(line) || opened(line) is Some || is_setting_line(section, line)
}

/// A plain configuration: nothing but blank lines, comments, headers and known settings.
pub open spec fn is_plain_config(text: Seq<char>) -> bool {
    forall|i: int|
        0 <= i < lines(text).len() ==> is_plain_line(
            section_after(lines(text).take(i)),
            #[trigger] lines(text)[i],
        )
}

/// `chars` without the white space at their start.
fn without_start(chars: &[char]) -> (out: Vec<char>)
    ensures
        out@ == trim_start(chars@),
{
    let k: usize = white_run(chars);
    proof {
        lemma_run_len(chars@, white());
    }
    let out = subvec(chars, k, chars.len());
    assert(out@ =~= trim_start(chars@));
    out
}

/// `chars` without the white space at their end.
fn without_end(chars: &[char]) -> (out: Vec<char>)
    ensures
        out@ == trim_end(chars@),
{
    let n: usize = trimmed_len(chars);
    let out = subvec(chars, 0, n);
    assert(out@ =~= trim_end(chars@));
    out
}

/// What follows `start` in `t`, if `t` starts with it.
fn rest_after(t: &Vec<char>, start: &str) -> (rest: Option<Vec<char>>)
    ensures
        match rest {
            Some(r) => after(t@, start@) == Some(r@),
            None => after(t@, start@) is None,
        },
{
    let start = chars_of(start);
    if is_prefix(start.as_slice(), t.as_slice()) {
        let r = subvec(t.as_slice(), start.len(), t.len());
        assert(r@ =~= t@.skip(start@.len() as int));
        Some(r)
    } else {
        None
    }
}

/// What a header holds behind its first colon.
fn path_of(t: &Vec<char>) -> (path: Option<Vec<char>>)
    ensures
        match path {
            Some(p) => header_path(t@) == Some(p@),
            None => header_path(t@) is None,
        },
{
    let inner = match rest_after(t, "[sqruff:") {
        Some(rest) => Some(rest),
        None => rest_after(t, "[sqlfluff:"),
    };
    match inner {
        Some(rest) => if rest.len() > 0 && rest[rest.len() - 1] == ']' {
            let p = subvec(rest.as_slice(), 0, rest.len() - 1);
            assert(p@ =~= rest@.drop_last());
            Some(p)
        } else {
            None
        },
        None => None,
    }
}

/// Whether `name` is one that a rule's section can have.
fn rule_name(name: &Vec<char>) -> (b: bool)
    ensures
        b == is_rule_name(name@),
{
    for i in 0..name.len()
        invariant
            forall|j: int| 0 <= j < i ==> is_name_char(#[trigger] name@[j]),
    {
        let c = name[i];
        if !(('a' <= c && c <= 'z') || c == '.' || c == '_') {
            assert(!is_name_char(name@[i as int]));
            return false;
        }
    }
    name.len() > 0 && !spells(name, "allow_scalar") && !spells(name, "single_table_references")
        && !spells(name, "unquoted_identifiers_policy")
}

/// The section with the given path.
fn section_of(path: &Vec<char>) -> (section: Option<Section>)
    ensures
        section == section_at(path@),
{
    if spells(path, "indentation") {
        return Some(Section::Indentation);
    }
    if spells(path, "rules") {
        return Some(Section::Rules);
    }
    if let Some(name) = rest_after(path, "rules:") {
        if rule_name(&name) {
            return Some(Section::Rule);
        }
    }
    if let Some(name) = rest_after(path, "layout:type:") {
        if names_laid_out(&name) {
            return Some(Section::Layout);
        }
    }
    None
}

/// The section that a line opens, if `t` is the line without white space at its ends.
fn opens(t: &Vec<char>, Ghost(line): Ghost<Seq<char>>) -> (section: Option<Section>)
    requires
        t@ == trimmed(line),
    ensures
        section == opened(line),
{
    if spells(t, "[sqruff]") || spells(t, "[sqlfluff]") {
        Some(Section::Core)
    } else {
        match path_of(t) {
            Some(path) => section_of(&path),
            None => None,
        }
    }
}

/// Whether `chars` holds `c`.
fn holds(chars: &Vec<char>, c: char) -> (b: bool)
    ensures
        b == chars@.contains(c),
{
    for i in 0..chars.len()
        invariant
            forall|j: int| 0 <= j < i ==> chars@[j] != c,
    {
        if chars[i] == c {
            assert(chars@[i as int] == c);
            return true;
        }
    }
    false
}

/// Whether a line holds a known setting and nothing else, if `t` is the line without
/// white space at its ends.
fn setting_line(section: Section, t: &Vec<char>, Ghost(line): Ghost<Seq<char>>) -> (b: bool)
    requires
        t@ == trimmed(line),
    ensures
        b == is_setting_line(section, line),
{
    let mut n: usize = 0;
    while n < t.len() && t[n] != '='
        invariant
            n <= t.len(),
            forall|i: int| 0 <= i < n ==> not_equals()(#[trigger] t@[i]),
        decreases t.len() - n,
    {
        n += 1;
    }
    proof {
        lemma_run_len_is(t@, not_equals(), n as nat);
    }
    if n >= t.len() || holds(t, '#') || holds(t, ';') {
        return false;
    }
    let key = without_end(slice_subrange(t.as_slice(), 0, n));
    let value = without_start(slice_subrange(t.as_slice(), n + 1, t.len()));
    proof {
        assert(t@.subrange(0, n as int) =~= t@.take(n as int));
        assert(t@.subrange(n + 1, t@.len() as int) =~= t@.skip(n + 1));
    }
    known_setting(section, &key, &value)
}

/// Whether `text` is a plain configuration.
pub fn plain_config(text: &str) -> (b: bool)
    ensures
        b == is_plain_config(text@),
{
    let ls = split_lines(chars_of(text).as_slice());
    let count: usize = ls.len();
    let mut section = Section::Start;
    assert(lines(text@).take(0) =~= Seq::<Seq<char>>::empty());
    assert(rows(ls@).len() == count);
    for i in 0..count
        invariant
            count == ls.len(),
            rows(ls@) == lines(text@),
            lines(text@).len() == count,
            section == section_after(lines(text@).take(i as int)),
            forall|j: int|
                0 <= j < i ==> is_plain_line(
                    section_after(lines(text@).take(j)),
                    #[trigger] lines(text@)[j],
                ),
    {
        let ghost line = lines(text@)[i as int];
        let ghost upto = lines(text@).take(i + 1);
        proof {
            assert(line == ls[i as int]@);
            assert(upto.drop_last() =~= lines(text@).take(i as int));
            assert(upto.last() == line);
        }
        let start = without_start(ls[i].as_slice());
        let t = without_end(start.as_slice());
        match opens(&t, Ghost(line)) {
            Some(next) => {
                section = next;
            },
            None => {
                let skipped = t.len() == 0 || t[0] == '#' || t[0] == ';';
                if !skipped && !setting_line(section, &t, Ghost(line)) {
                    assert(!is_plain_line(section_after(lines(text@).take(i as int)), line));
                    return false;
                }
            },
        }
    }
    true
}

} // verus!
