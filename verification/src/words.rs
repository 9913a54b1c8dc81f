//! The node kinds and field names of the Python grammar that the library reads.
use vstd::prelude::*;

verus! {

pub open spec fn w_function_definition() -> Seq<char> {
    seq!['f', 'u', 'n', 'c', 't', 'i', 'o', 'n', '_', 'd', 'e', 'f', 'i', 'n', 'i', 't', 'i', 'o', 'n']
}

/// `function_definition`.
pub fn word_function_definition() -> (r: &'static [char])
    ensures
        r@ == w_function_definition(),
{
    let l: &'static [char] = &['f', 'u', 'n', 'c', 't', 'i', 'o', 'n', '_', 'd', 'e', 'f', 'i', 'n', 'i', 't', 'i', 'o', 'n'];
    assert(l@ =~= w_function_definition());
    l
}

pub open spec fn w_class_definition() -> Seq<char> {
    seq!['c', 'l', 'a', 's', 's', '_', 'd', 'e', 'f', 'i', 'n', 'i', 't', 'i', 'o', 'n']
}

/// `class_definition`.
pub fn word_class_definition() -> (r: &'static [char])
    ensures
        r@ == w_class_definition(),
{
    let l: &'static [char] = &['c', 'l', 'a', 's', 's', '_', 'd', 'e', 'f', 'i', 'n', 'i', 't', 'i', 'o', 'n'];
    assert(l@ =~= w_class_definition());
    l
}

pub open spec fn w_lambda() -> Seq<char> {
    seq!['l', 'a', 'm', 'b', 'd', 'a']
}

/// `lambda`.
pub fn word_lambda() -> (r: &'static [char])
    ensures
        r@ == w_lambda(),
{
    let l: &'static [char] = &['l', 'a', 'm', 'b', 'd', 'a'];
    assert(l@ =~= w_lambda());
    l
}

pub open spec fn w_list_comprehension() -> Seq<char> {
    seq!['l', 'i', 's', 't', '_', 'c', 'o', 'm', 'p', 'r', 'e', 'h', 'e', 'n', 's', 'i', 'o', 'n']
}

/// `list_comprehension`.
pub fn word_list_comprehension() -> (r: &'static [char])
    ensures
        r@ == w_list_comprehension(),
{
    let l: &'static [char] = &['l', 'i', 's', 't', '_', 'c', 'o', 'm', 'p', 'r', 'e', 'h', 'e', 'n', 's', 'i', 'o', 'n'];
    assert(l@ =~= w_list_comprehension());
    l
}

pub open spec fn w_set_comprehension() -> Seq<char> {
    seq!['s', 'e', 't', '_', 'c', 'o', 'm', 'p', 'r', 'e', 'h', 'e', 'n', 's', 'i', 'o', 'n']
}

/// `set_comprehension`.
pub fn word_set_comprehension() -> (r: &'static [char])
    ensures
        r@ == w_set_comprehension(),
{
    let l: &'static [char] = &['s', 'e', 't', '_', 'c', 'o', 'm', 'p', 'r', 'e', 'h', 'e', 'n', 's', 'i', 'o', 'n'];
    assert(l@ =~= w_set_comprehension());
    l
}

pub open spec fn w_dictionary_comprehension() -> Seq<char> {
    seq!['d', 'i', 'c', 't', 'i', 'o', 'n', 'a', 'r', 'y', '_', 'c', 'o', 'm', 'p', 'r', 'e', 'h', 'e', 'n', 's', 'i', 'o', 'n']
}

/// `dictionary_comprehension`.
pub fn word_dictionary_comprehension() -> (r: &'static [char])
    ensures
        r@ == w_dictionary_comprehension(),
{
    let l: &'static [char] = &['d', 'i', 'c', 't', 'i', 'o', 'n', 'a', 'r', 'y', '_', 'c', 'o', 'm', 'p', 'r', 'e', 'h', 'e', 'n', 's', 'i', 'o', 'n'];
    assert(l@ =~= w_dictionary_comprehension());
    l
}

pub open spec fn w_generator_expression() -> Seq<char> {
    seq!['g', 'e', 'n', 'e', 'r', 'a', 't', 'o', 'r', '_', 'e', 'x', 'p', 'r', 'e', 's', 's', 'i', 'o', 'n']
}

/// `generator_expression`.
pub fn word_generator_expression() -> (r: &'static [char])
    ensures
        r@ == w_generator_expression(),
{
    let l: &'static [char] = &['g', 'e', 'n', 'e', 'r', 'a', 't', 'o', 'r', '_', 'e', 'x', 'p', 'r', 'e', 's', 's', 'i', 'o', 'n'];
    assert(l@ =~= w_generator_expression());
    l
}

pub open spec fn w_import_statement() -> Seq<char> {
    seq!['i', 'm', 'p', 'o', 'r', 't', '_', 's', 't', 'a', 't', 'e', 'm', 'e', 'n', 't']
}

/// `import_statement`.
pub fn word_import_statement() -> (r: &'static [char])
    ensures
        r@ == w_import_statement(),
{
    let l: &'static [char] = &['i', 'm', 'p', 'o', 'r', 't', '_', 's', 't', 'a', 't', 'e', 'm', 'e', 'n', 't'];
    assert(l@ =~= w_import_statement());
    l
}

pub open spec fn w_import_from_statement() -> Seq<char> {
    seq!['i', 'm', 'p', 'o', 'r', 't', '_', 'f', 'r', 'o', 'm', '_', 's', 't', 'a', 't', 'e', 'm', 'e', 'n', 't']
}

/// `import_from_statement`.
pub fn word_import_from_statement() -> (r: &'static [char])
    ensures
        r@ == w_import_from_statement(),
{
    let l: &'static [char] = &['i', 'm', 'p', 'o', 'r', 't', '_', 'f', 'r', 'o', 'm', '_', 's', 't', 'a', 't', 'e', 'm', 'e', 'n', 't'];
    assert(l@ =~= w_import_from_statement());
    l
}

pub open spec fn w_assignment() -> Seq<char> {
    seq!['a', 's', 's', 'i', 'g', 'n', 'm', 'e', 'n', 't']
}

/// `assignment`.
pub fn word_assignment() -> (r: &'static [char])
    ensures
        r@ == w_assignment(),
{
    let l: &'static [char] = &['a', 's', 's', 'i', 'g', 'n', 'm', 'e', 'n', 't'];
    assert(l@ =~= w_assignment());
    l
}

pub open spec fn w_augmented_assignment() -> Seq<char> {
    seq!['a', 'u', 'g', 'm', 'e', 'n', 't', 'e', 'd', '_', 'a', 's', 's', 'i', 'g', 'n', 'm', 'e', 'n', 't']
}

/// `augmented_assignment`.
pub fn word_augmented_assignment() -> (r: &'static [char])
    ensures
        r@ == w_augmented_assignment(),
{
    let l: &'static [char] = &['a', 'u', 'g', 'm', 'e', 'n', 't', 'e', 'd', '_', 'a', 's', 's', 'i', 'g', 'n', 'm', 'e', 'n', 't'];
    assert(l@ =~= w_augmented_assignment());
    l
}

pub open spec fn w_for_statement() -> Seq<char> {
    seq!['f', 'o', 'r', '_', 's', 't', 'a', 't', 'e', 'm', 'e', 'n', 't']
}

/// `for_statement`.
pub fn word_for_statement() -> (r: &'static [char])
    ensures
        r@ == w_for_statement(),
{
    let l: &'static [char] = &['f', 'o', 'r', '_', 's', 't', 'a', 't', 'e', 'm', 'e', 'n', 't'];
    assert(l@ =~= w_for_statement());
    l
}

pub open spec fn w_for_in_clause() -> Seq<char> {
    seq!['f', 'o', 'r', '_', 'i', 'n', '_', 'c', 'l', 'a', 'u', 's', 'e']
}

/// `for_in_clause`.
pub fn word_for_in_clause() -> (r: &'static [char])
    ensures
        r@ == w_for_in_clause(),
{
    let l: &'static [char] = &['f', 'o', 'r', '_', 'i', 'n', '_', 'c', 'l', 'a', 'u', 's', 'e'];
    assert(l@ =~= w_for_in_clause());
    l
}

pub open spec fn w_named_expression() -> Seq<char> {
    seq!['n', 'a', 'm', 'e', 'd', '_', 'e', 'x', 'p', 'r', 'e', 's', 's', 'i', 'o', 'n']
}

/// `named_expression`.
pub fn word_named_expression() -> (r: &'static [char])
    ensures
        r@ == w_named_expression(),
{
    let l: &'static [char] = &['n', 'a', 'm', 'e', 'd', '_', 'e', 'x', 'p', 'r', 'e', 's', 's', 'i', 'o', 'n'];
    assert(l@ =~= w_named_expression());
    l
}

pub open spec fn w_except_clause() -> Seq<char> {
    seq!['e', 'x', 'c', 'e', 'p', 't', '_', 'c', 'l', 'a', 'u', 's', 'e']
}

/// `except_clause`.
pub fn word_except_clause() -> (r: &'static [char])
    ensures
        r@ == w_except_clause(),
{
    let l: &'static [char] = &['e', 'x', 'c', 'e', 'p', 't', '_', 'c', 'l', 'a', 'u', 's', 'e'];
    assert(l@ =~= w_except_clause());
    l
}

pub open spec fn w_as_pattern() -> Seq<char> {
    seq!['a', 's', '_', 'p', 'a', 't', 't', 'e', 'r', 'n']
}

/// `as_pattern`.
pub fn word_as_pattern() -> (r: &'static [char])
    ensures
        r@ == w_as_pattern(),
{
    let l: &'static [char] = &['a', 's', '_', 'p', 'a', 't', 't', 'e', 'r', 'n'];
    assert(l@ =~= w_as_pattern());
    l
}

pub open spec fn w_global_statement() -> Seq<char> {
    seq!['g', 'l', 'o', 'b', 'a', 'l', '_', 's', 't', 'a', 't', 'e', 'm', 'e', 'n', 't']
}

/// `global_statement`.
pub fn word_global_statement() -> (r: &'static [char])
    ensures
        r@ == w_global_statement(),
{
    let l: &'static [char] = &['g', 'l', 'o', 'b', 'a', 'l', '_', 's', 't', 'a', 't', 'e', 'm', 'e', 'n', 't'];
    assert(l@ =~= w_global_statement());
    l
}

pub open spec fn w_nonlocal_statement() -> Seq<char> {
    seq!['n', 'o', 'n', 'l', 'o', 'c', 'a', 'l', '_', 's', 't', 'a', 't', 'e', 'm', 'e', 'n', 't']
}

/// `nonlocal_statement`.
pub fn word_nonlocal_statement() -> (r: &'static [char])
    ensures
        r@ == w_nonlocal_statement(),
{
    let l: &'static [char] = &['n', 'o', 'n', 'l', 'o', 'c', 'a', 'l', '_', 's', 't', 'a', 't', 'e', 'm', 'e', 'n', 't'];
    assert(l@ =~= w_nonlocal_statement());
    l
}

pub open spec fn w_identifier() -> Seq<char> {
    seq!['i', 'd', 'e', 'n', 't', 'i', 'f', 'i', 'e', 'r']
}

/// `identifier`.
pub fn word_identifier() -> (r: &'static [char])
    ensures
        r@ == w_identifier(),
{
    let l: &'static [char] = &['i', 'd', 'e', 'n', 't', 'i', 'f', 'i', 'e', 'r'];
    assert(l@ =~= w_identifier());
    l
}

pub open spec fn w_keyword_identifier() -> Seq<char> {
    seq!['k', 'e', 'y', 'w', 'o', 'r', 'd', '_', 'i', 'd', 'e', 'n', 't', 'i', 'f', 'i', 'e', 'r']
}

/// `keyword_identifier`.
pub fn word_keyword_identifier() -> (r: &'static [char])
    ensures
        r@ == w_keyword_identifier(),
{
    let l: &'static [char] = &['k', 'e', 'y', 'w', 'o', 'r', 'd', '_', 'i', 'd', 'e', 'n', 't', 'i', 'f', 'i', 'e', 'r'];
    assert(l@ =~= w_keyword_identifier());
    l
}

pub open spec fn w_attribute() -> Seq<char> {
    seq!['a', 't', 't', 'r', 'i', 'b', 'u', 't', 'e']
}

/// `attribute`.
pub fn word_attribute() -> (r: &'static [char])
    ensures
        r@ == w_attribute(),
{
    let l: &'static [char] = &['a', 't', 't', 'r', 'i', 'b', 'u', 't', 'e'];
    assert(l@ =~= w_attribute());
    l
}

pub open spec fn w_subscript() -> Seq<char> {
    seq!['s', 'u', 'b', 's', 'c', 'r', 'i', 'p', 't']
}

/// `subscript`.
pub fn word_subscript() -> (r: &'static [char])
    ensures
        r@ == w_subscript(),
{
    let l: &'static [char] = &['s', 'u', 'b', 's', 'c', 'r', 'i', 'p', 't'];
    assert(l@ =~= w_subscript());
    l
}

pub open spec fn w_tuple_pattern() -> Seq<char> {
    seq!['t', 'u', 'p', 'l', 'e', '_', 'p', 'a', 't', 't', 'e', 'r', 'n']
}

/// `tuple_pattern`.
pub fn word_tuple_pattern() -> (r: &'static [char])
    ensures
        r@ == w_tuple_pattern(),
{
    let l: &'static [char] = &['t', 'u', 'p', 'l', 'e', '_', 'p', 'a', 't', 't', 'e', 'r', 'n'];
    assert(l@ =~= w_tuple_pattern());
    l
}

pub open spec fn w_list_splat_pattern() -> Seq<char> {
    seq!['l', 'i', 's', 't', '_', 's', 'p', 'l', 'a', 't', '_', 'p', 'a', 't', 't', 'e', 'r', 'n']
}

/// `list_splat_pattern`.
pub fn word_list_splat_pattern() -> (r: &'static [char])
    ensures
        r@ == w_list_splat_pattern(),
{
    let l: &'static [char] = &['l', 'i', 's', 't', '_', 's', 'p', 'l', 'a', 't', '_', 'p', 'a', 't', 't', 'e', 'r', 'n'];
    assert(l@ =~= w_list_splat_pattern());
    l
}

pub open spec fn w_dictionary_splat_pattern() -> Seq<char> {
    seq!['d', 'i', 'c', 't', 'i', 'o', 'n', 'a', 'r', 'y', '_', 's', 'p', 'l', 'a', 't', '_', 'p', 'a', 't', 't', 'e', 'r', 'n']
}

/// `dictionary_splat_pattern`.
pub fn word_dictionary_splat_pattern() -> (r: &'static [char])
    ensures
        r@ == w_dictionary_splat_pattern(),
{
    let l: &'static [char] = &['d', 'i', 'c', 't', 'i', 'o', 'n', 'a', 'r', 'y', '_', 's', 'p', 'l', 'a', 't', '_', 'p', 'a', 't', 't', 'e', 'r', 'n'];
    assert(l@ =~= w_dictionary_splat_pattern());
    l
}

pub open spec fn w_aliased_import() -> Seq<char> {
    seq!['a', 'l', 'i', 'a', 's', 'e', 'd', '_', 'i', 'm', 'p', 'o', 'r', 't']
}

/// `aliased_import`.
pub fn word_aliased_import() -> (r: &'static [char])
    ensures
        r@ == w_aliased_import(),
{
    let l: &'static [char] = &['a', 'l', 'i', 'a', 's', 'e', 'd', '_', 'i', 'm', 'p', 'o', 'r', 't'];
    assert(l@ =~= w_aliased_import());
    l
}

pub open spec fn w_body() -> Seq<char> {
    seq!['b', 'o', 'd', 'y']
}

/// `body`.
pub fn word_body() -> (r: &'static [char])
    ensures
        r@ == w_body(),
{
    let l: &'static [char] = &['b', 'o', 'd', 'y'];
    assert(l@ =~= w_body());
    l
}

pub open spec fn w_parameters() -> Seq<char> {
    seq!['p', 'a', 'r', 'a', 'm', 'e', 't', 'e', 'r', 's']
}

/// `parameters`.
pub fn word_parameters() -> (r: &'static [char])
    ensures
        r@ == w_parameters(),
{
    let l: &'static [char] = &['p', 'a', 'r', 'a', 'm', 'e', 't', 'e', 'r', 's'];
    assert(l@ =~= w_parameters());
    l
}

pub open spec fn w_name() -> Seq<char> {
    seq!['n', 'a', 'm', 'e']
}

/// `name`.
pub fn word_name() -> (r: &'static [char])
    ensures
        r@ == w_name(),
{
    let l: &'static [char] = &['n', 'a', 'm', 'e'];
    assert(l@ =~= w_name());
    l
}

pub open spec fn w_alias() -> Seq<char> {
    seq!['a', 'l', 'i', 'a', 's']
}

/// `alias`.
pub fn word_alias() -> (r: &'static [char])
    ensures
        r@ == w_alias(),
{
    let l: &'static [char] = &['a', 'l', 'i', 'a', 's'];
    assert(l@ =~= w_alias());
    l
}

pub open spec fn w_module_name() -> Seq<char> {
    seq!['m', 'o', 'd', 'u', 'l', 'e', '_', 'n', 'a', 'm', 'e']
}

/// `module_name`.
pub fn word_module_name() -> (r: &'static [char])
    ensures
        r@ == w_module_name(),
{
    let l: &'static [char] = &['m', 'o', 'd', 'u', 'l', 'e', '_', 'n', 'a', 'm', 'e'];
    assert(l@ =~= w_module_name());
    l
}

pub open spec fn w_left() -> Seq<char> {
    seq!['l', 'e', 'f', 't']
}

/// `left`.
pub fn word_left() -> (r: &'static [char])
    ensures
        r@ == w_left(),
{
    let l: &'static [char] = &['l', 'e', 'f', 't'];
    assert(l@ =~= w_left());
    l
}

pub open spec fn w_call() -> Seq<char> {
    seq!['c', 'a', 'l', 'l']
}

/// `call`.
pub fn word_call() -> (r: &'static [char])
    ensures
        r@ == w_call(),
{
    let l: &'static [char] = &['c', 'a', 'l', 'l'];
    assert(l@ =~= w_call());
    l
}

pub open spec fn w_function() -> Seq<char> {
    seq!['f', 'u', 'n', 'c', 't', 'i', 'o', 'n']
}

/// `function`.
pub fn word_function() -> (r: &'static [char])
    ensures
        r@ == w_function(),
{
    let l: &'static [char] = &['f', 'u', 'n', 'c', 't', 'i', 'o', 'n'];
    assert(l@ =~= w_function());
    l
}

pub open spec fn w_arguments() -> Seq<char> {
    seq!['a', 'r', 'g', 'u', 'm', 'e', 'n', 't', 's']
}

/// `arguments`.
pub fn word_arguments() -> (r: &'static [char])
    ensures
        r@ == w_arguments(),
{
    let l: &'static [char] = &['a', 'r', 'g', 'u', 'm', 'e', 'n', 't', 's'];
    assert(l@ =~= w_arguments());
    l
}

pub open spec fn w_keyword_argument() -> Seq<char> {
    seq!['k', 'e', 'y', 'w', 'o', 'r', 'd', '_', 'a', 'r', 'g', 'u', 'm', 'e', 'n', 't']
}

/// `keyword_argument`.
pub fn word_keyword_argument() -> (r: &'static [char])
    ensures
        r@ == w_keyword_argument(),
{
    let l: &'static [char] = &['k', 'e', 'y', 'w', 'o', 'r', 'd', '_', 'a', 'r', 'g', 'u', 'm', 'e', 'n', 't'];
    assert(l@ =~= w_keyword_argument());
    l
}

pub open spec fn w_value() -> Seq<char> {
    seq!['v', 'a', 'l', 'u', 'e']
}

/// `value`.
pub fn word_value() -> (r: &'static [char])
    ensures
        r@ == w_value(),
{
    let l: &'static [char] = &['v', 'a', 'l', 'u', 'e'];
    assert(l@ =~= w_value());
    l
}

pub open spec fn w_class() -> Seq<char> {
    seq!['c', 'l', 'a', 's', 's']
}

/// `class`.
pub fn word_class() -> (r: &'static [char])
    ensures
        r@ == w_class(),
{
    let l: &'static [char] = &['c', 'l', 'a', 's', 's'];
    assert(l@ =~= w_class());
    l
}

} // verus!
