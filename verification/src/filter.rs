//! Graph filters: expressions that select packages of the dependency graph,
//! and the parser of their written form.

use crate::format::PackageName;
use crate::text::{chars_of, string_of};
use crate::version::{semver_parse, Version, VersionModel};
use vstd::prelude::*;
use vstd::string::StrSliceExecFns;

verus! {

/// A filter keeps the packages that match its query, or those that do not.
#[derive(Debug)]
pub enum GraphFilter {
    Include(GraphFilterQuery),
    Exclude(GraphFilterQuery),
}

/// A query over the properties of a package.
#[derive(Debug)]
pub enum GraphFilterQuery {
    Any(Vec<GraphFilterQuery>),
    All(Vec<GraphFilterQuery>),
    Not(Box<GraphFilterQuery>),
    Prop(GraphFilterProperty),
}

/// One property of a package and the value asked of it.
#[derive(Clone, Debug)]
pub enum GraphFilterProperty {
    Name(PackageName),
    Version(Version),
    IsRoot(bool),
    IsWorkspaceMember(bool),
    IsThirdParty(bool),
    IsDevOnly(bool),
}

/// A property as a mathematical value.
pub enum PropertyModel {
    Name(Seq<char>),
    Version(VersionModel),
    IsRoot(bool),
    IsWorkspaceMember(bool),
    IsThirdParty(bool),
    IsDevOnly(bool),
}

/// A query as a mathematical value.
pub enum QueryModel {
    Any(Seq<QueryModel>),
    All(Seq<QueryModel>),
    Not(Box<QueryModel>),
    Prop(PropertyModel),
}

/// A filter as a mathematical value.
pub enum FilterModel {
    Include(QueryModel),
    Exclude(QueryModel),
}

impl View for GraphFilterProperty {
    type V = PropertyModel;

    open spec fn view(&self) -> PropertyModel {
        match self {
            GraphFilterProperty::Name(name) => PropertyModel::Name(name@),
            GraphFilterProperty::Version(version) => PropertyModel::Version(version@),
            GraphFilterProperty::IsRoot(b) => PropertyModel::IsRoot(*b),
            GraphFilterProperty::IsWorkspaceMember(b) => PropertyModel::IsWorkspaceMember(*b),
            GraphFilterProperty::IsThirdParty(b) => PropertyModel::IsThirdParty(*b),
            GraphFilterProperty::IsDevOnly(b) => PropertyModel::IsDevOnly(*b),
        }
    }
}

/// The mathematical value of a query.
pub open spec fn query_model(query: GraphFilterQuery) -> QueryModel
    decreases query,
{
    match query {
        GraphFilterQuery::Any(queries) => QueryModel::Any(
            Seq::new(
                queries@.len(),
                |i: int|
                    if 0 <= i < queries@.len() {
                        query_model(queries@[i])
                    } else {
                        arbitrary()
                    },
            ),
        ),
        GraphFilterQuery::All(queries) => QueryModel::All(
            Seq::new(
                queries@.len(),
                |i: int|
                    if 0 <= i < queries@.len() {
                        query_model(queries@[i])
                    } else {
                        arbitrary()
                    },
            ),
        ),
        GraphFilterQuery::Not(query) => QueryModel::Not(Box::new(query_model(*query))),
        GraphFilterQuery::Prop(property) => QueryModel::Prop(property@),
    }
}

impl View for GraphFilterQuery {
    type V = QueryModel;

    open spec fn view(&self) -> QueryModel {
        query_model(*self)
    }
}

impl View for GraphFilter {
    type V = FilterModel;

    open spec fn view(&self) -> FilterModel {
        match self {
            GraphFilter::Include(query) => FilterModel::Include(query@),
            GraphFilter::Exclude(query) => FilterModel::Exclude(query@),
        }
    }
}

/// The queries of a list as mathematical values.
pub open spec fn query_views(queries: Seq<GraphFilterQuery>) -> Seq<QueryModel> {
    Seq::new(queries.len(), |i: int| queries[i]@)
}

/// What the parser expected where it stopped.
#[derive(Clone, Copy, Debug, PartialEq, Eq, Structural)]
pub enum FilterErrorKind {
    /// `include(` or `exclude(`.
    ExpectedFilter,
    /// `any(`, `all(`, `not(` or a property.
    ExpectedQuery,
    /// A name or a version.
    ExpectedValue,
    /// `true` or `false`.
    ExpectedBool,
    /// A version in the form that semantic versioning gives it.
    BadVersion,
    /// A comma and a further query: `any` and `all` take two or more.
    ExpectedComma,
    /// A closing parenthesis.
    ExpectedClose,
    /// The end of the text.
    TrailingInput,
}

/// Where and why a filter could not be parsed. The offset counts characters
/// from the start of the text.
#[derive(Clone, Copy, Debug, PartialEq, Eq, Structural)]
pub struct FilterParseError {
    pub offset: usize,
    pub kind: FilterErrorKind,
}

/// Space, tab, carriage return and line feed separate tokens.
pub open spec fn is_space(c: char) -> bool {
    c == ' ' || c == '\t' || c == '\r' || c == '\n'
}

/// The first position at or after `pos` that holds no space.
pub open spec fn skip_spaces(s: Seq<char>, pos: int) -> int
    decreases s.len() - pos,
{
    if 0 <= pos < s.len() && is_space(s[pos]) {
        skip_spaces(s, pos + 1)
    } else {
        pos
    }
}

/// The text at `pos` starts with `tag`, which is not empty.
pub open spec fn at_tag(s: Seq<char>, pos: int, tag: Seq<char>) -> bool {
    &&& tag.len() > 0
    &&& 0 <= pos
    &&& pos + tag.len() <= s.len()
    &&& s.subrange(pos, pos + tag.len()) == tag
}

/// The position behind `tag` at `pos` and the spaces that follow it.
pub open spec fn after_tag(s: Seq<char>, pos: int, tag: Seq<char>) -> int {
    skip_spaces(s, pos + tag.len())
}

/// The end of the value that starts at `pos`: the first closing parenthesis
/// or space.
pub open spec fn value_end(s: Seq<char>, pos: int) -> int
    decreases s.len() - pos,
{
    if 0 <= pos < s.len() && s[pos] != ')' && s[pos] != ' ' {
        value_end(s, pos + 1)
    } else {
        pos
    }
}

/// The error of kind `kind` at position `pos`.
pub open spec fn failure(pos: int, kind: FilterErrorKind) -> FilterParseError {
    FilterParseError { offset: pos as usize, kind }
}

/// A closing parenthesis between optional spaces.
pub open spec fn parse_close(s: Seq<char>, pos: int) -> Result<int, FilterParseError> {
    let p = skip_spaces(s, pos);
    if at_tag(s, p, ")"@) {
        Ok(after_tag(s, p, ")"@))
    } else {
        Err(failure(p, FilterErrorKind::ExpectedClose))
    }
}

/// `true` or `false` between optional spaces.
pub open spec fn parse_bool(s: Seq<char>, pos: int) -> Result<(bool, int), FilterParseError> {
    let p = skip_spaces(s, pos);
    if at_tag(s, p, "true"@) {
        Ok((true, after_tag(s, p, "true"@)))
    } else if at_tag(s, p, "false"@) {
        Ok((false, after_tag(s, p, "false"@)))
    } else {
        Err(failure(p, FilterErrorKind::ExpectedBool))
    }
}

/// A truth value and the parenthesis that closes the property.
pub open spec fn parse_flag(s: Seq<char>, pos: int) -> Result<(bool, int), FilterParseError> {
    match parse_bool(s, pos) {
        Ok((flag, next)) => match parse_close(s, next) {
            Ok(end) => Ok((flag, end)),
            Err(e) => Err(e),
        },
        Err(e) => Err(e),
    }
}

/// The bounds of a name or version and the position behind the parenthesis
/// that closes the property.
pub open spec fn parse_value(s: Seq<char>, pos: int) -> Result<(int, int, int), FilterParseError> {
    let from = skip_spaces(s, pos);
    let to = value_end(s, from);
    if to == from {
        Err(failure(from, FilterErrorKind::ExpectedValue))
    } else {
        match parse_close(s, to) {
            Ok(end) => Ok((from, to, end)),
            Err(e) => Err(e),
        }
    }
}

/// A property, where the text at `pos` starts with the name of one.
pub open spec fn parse_property(s: Seq<char>, pos: int) -> Option<
    Result<(PropertyModel, int), FilterParseError>,
> {
    let p = skip_spaces(s, pos);
    if at_tag(s, p, "name("@) {
        Some(
            match parse_value(s, p + "name("@.len()) {
                Ok((from, to, end)) => Ok((PropertyModel::Name(s.subrange(from, to)), end)),
                Err(e) => Err(e),
            },
        )
    } else if at_tag(s, p, "version("@) {
        Some(
            match parse_value(s, p + "version("@.len()) {
                Ok((from, to, end)) => match semver_parse(s.subrange(from, to)) {
                    Some(version) => Ok((PropertyModel::Version(version), end)),
                    None => Err(failure(from, FilterErrorKind::BadVersion)),
                },
                Err(e) => Err(e),
            },
        )
    } else if at_tag(s, p, "is_root("@) {
        Some(
            match parse_flag(s, p + "is_root("@.len()) {
                Ok((flag, end)) => Ok((PropertyModel::IsRoot(flag), end)),
                Err(e) => Err(e),
            },
        )
    } else if at_tag(s, p, "is_workspace_member("@) {
        Some(
            match parse_flag(s, p + "is_workspace_member("@.len()) {
                Ok((flag, end)) => Ok((PropertyModel::IsWorkspaceMember(flag), end)),
                Err(e) => Err(e),
            },
        )
    } else if at_tag(s, p, "is_third_party("@) {
        Some(
            match parse_flag(s, p + "is_third_party("@.len()) {
                Ok((flag, end)) => Ok((PropertyModel::IsThirdParty(flag), end)),
                Err(e) => Err(e),
            },
        )
    } else if at_tag(s, p, "is_dev_only("@) {
        Some(
            match parse_flag(s, p + "is_dev_only("@.len()) {
                Ok((flag, end)) => Ok((PropertyModel::IsDevOnly(flag), end)),
                Err(e) => Err(e),
            },
        )
    } else {
        None
    }
}

/// Skipping spaces never moves backwards nor past the end.
pub proof fn lemma_skip_spaces(s: Seq<char>, pos: int)
    requires
        0 <= pos <= s.len(),
    ensures
        pos <= skip_spaces(s, pos) <= s.len(),
    decreases s.len() - pos,
{
    if pos < s.len() && is_space(s[pos]) {
        lemma_skip_spaces(s, pos + 1);
    }
}

/// A value never ends before its start nor past the end.
pub proof fn lemma_value_end(s: Seq<char>, pos: int)
    requires
        0 <= pos <= s.len(),
    ensures
        pos <= value_end(s, pos) <= s.len(),
    decreases s.len() - pos,
{
    if pos < s.len() && s[pos] != ')' && s[pos] != ' ' {
        lemma_value_end(s, pos + 1);
    }
}

/// A query: `any(..)`, `all(..)`, `not(..)` or a property.
pub open spec fn parse_query(s: Seq<char>, pos: int) -> Result<(QueryModel, int), FilterParseError>
    decreases s.len() - pos, 0int,
{
    let p = skip_spaces(s, pos);
    if !(0 <= pos <= s.len()) {
        Err(failure(pos, FilterErrorKind::ExpectedQuery))
    } else if at_tag(s, p, "any("@) {
        proof {
            lemma_skip_spaces(s, pos);
        }
        match parse_list(s, p + "any("@.len(), Seq::empty()) {
            Ok((queries, next)) => match parse_close(s, next) {
                Ok(end) => Ok((QueryModel::Any(queries), end)),
                Err(e) => Err(e),
            },
            Err(e) => Err(e),
        }
    } else if at_tag(s, p, "all("@) {
        proof {
            lemma_skip_spaces(s, pos);
        }
        match parse_list(s, p + "all("@.len(), Seq::empty()) {
            Ok((queries, next)) => match parse_close(s, next) {
                Ok(end) => Ok((QueryModel::All(queries), end)),
                Err(e) => Err(e),
            },
            Err(e) => Err(e),
        }
    } else if at_tag(s, p, "not("@) {
        proof {
            lemma_skip_spaces(s, pos);
        }
        match parse_query(s, p + "not("@.len()) {
            Ok((query, next)) => match parse_close(s, next) {
                Ok(end) => Ok((QueryModel::Not(Box::new(query)), end)),
                Err(e) => Err(e),
            },
            Err(e) => Err(e),
        }
    } else {
        match parse_property(s, pos) {
            Some(Ok((property, end))) => Ok((QueryModel::Prop(property), end)),
            Some(Err(e)) => Err(e),
            None => Err(failure(p, FilterErrorKind::ExpectedQuery)),
        }
    }
}

/// The queries of `any(..)` or `all(..)`: two or more, with commas between
/// them. `found` holds the queries read so far; `pos` is where the next one
/// starts.
pub open spec fn parse_list(s: Seq<char>, pos: int, found: Seq<QueryModel>) -> Result<
    (Seq<QueryModel>, int),
    FilterParseError,
>
    decreases s.len() - pos, 1int,
{
    match parse_query(s, pos) {
        Ok((query, next)) => {
            if at_tag(s, next, ","@) && next >= pos {
                parse_list(s, next + ","@.len(), found.push(query))
            } else if found.len() >= 1 {
                Ok((found.push(query), next))
            } else {
                Err(failure(next, FilterErrorKind::ExpectedComma))
            }
        },
        Err(e) => Err(e),
    }
}

/// A whole filter: `include(..)` or `exclude(..)` and nothing behind it.
pub open spec fn parse_filter(s: Seq<char>) -> Result<FilterModel, FilterParseError> {
    let p = skip_spaces(s, 0);
    if at_tag(s, p, "include("@) || at_tag(s, p, "exclude("@) {
        let keeps = at_tag(s, p, "include("@);
        match parse_query(s, p + "include("@.len()) {
            Ok((query, next)) => match parse_close(s, next) {
                Ok(end) => if end == s.len() {
                    Ok(
                        if keeps {
                            FilterModel::Include(query)
                        } else {
                            FilterModel::Exclude(query)
                        },
                    )
                } else {
                    Err(failure(end, FilterErrorKind::TrailingInput))
                },
                Err(e) => Err(e),
            },
            Err(e) => Err(e),
        }
    } else {
        Err(failure(p, FilterErrorKind::ExpectedFilter))
    }
}

/// Whether the outcome of a parser step is the one that the grammar gives.
pub open spec fn query_outcome(
    got: Result<(GraphFilterQuery, usize), FilterParseError>,
    want: Result<(QueryModel, int), FilterParseError>,
) -> bool {
    match want {
        Ok((model, end)) => got is Ok && got->Ok_0.0@ == model && got->Ok_0.1 == end,
        Err(e) => got is Err && got->Err_0 == e,
    }
}

fn skip_spaces_at(s: &Vec<char>, pos: usize) -> (end: usize)
    requires
        pos <= s@.len(),
    ensures
        end == skip_spaces(s@, pos as int),
        pos <= end <= s@.len(),
{
    let mut end = pos;
    while end < s.len() && (s[end] == ' ' || s[end] == '\t' || s[end] == '\r' || s[end] == '\n')
        invariant
            pos <= end <= s@.len(),
            skip_spaces(s@, pos as int) == skip_spaces(s@, end as int),
        decreases s@.len() - end,
    {
        end += 1;
    }
    end
}

fn value_end_at(s: &Vec<char>, pos: usize) -> (end: usize)
    requires
        pos <= s@.len(),
    ensures
        end == value_end(s@, pos as int),
        pos <= end <= s@.len(),
{
    let mut end = pos;
    while end < s.len() && s[end] != ')' && s[end] != ' '
        invariant
            pos <= end <= s@.len(),
            value_end(s@, pos as int) == value_end(s@, end as int),
        decreases s@.len() - end,
    {
        end += 1;
    }
    end
}

/// The position behind `tag`, where the text at `pos` starts with it.
fn tag_end(s: &Vec<char>, pos: usize, tag: &str) -> (end: Option<usize>)
    requires
        pos <= s@.len(),
    ensures
        end is Some == at_tag(s@, pos as int, tag@),
        end is Some ==> end->0 == pos + tag@.len() && end->0 <= s@.len(),
{
    let n = tag.unicode_len();
    let limit = s.len();
    if n == 0 || n > limit - pos {
        return None;
    }
    let mut i: usize = 0;
    while i < n
        invariant
            i <= n,
            n == tag@.len(),
            limit == s@.len(),
            pos + n <= limit,
            s@.subrange(pos as int, pos + i) == tag@.subrange(0, i as int),
        decreases n - i,
    {
        if s[pos + i] != tag.get_char(i) {
            proof {
                if s@.subrange(pos as int, pos + n) == tag@ {
                    assert(s@.subrange(pos as int, pos + n)[i as int] == tag@[i as int]);
                }
            }
            return None;
        }
        assert(s@.subrange(pos as int, pos + i + 1) =~= s@.subrange(pos as int, pos + i).push(
            s@[pos + i],
        ));
        assert(tag@.subrange(0, i + 1) =~= tag@.subrange(0, i as int).push(tag@[i as int]));
        i += 1;
    }
    assert(tag@.subrange(0, n as int) =~= tag@);
    Some(pos + n)
}

fn close_at(s: &Vec<char>, pos: usize) -> (end: Result<usize, FilterParseError>)
    requires
        pos <= s@.len(),
    ensures
        match parse_close(s@, pos as int) {
            Ok(want) => end is Ok && end->Ok_0 == want && want <= s@.len(),
            Err(e) => end is Err && end->Err_0 == e,
        },
{
    let p = skip_spaces_at(s, pos);
    match tag_end(s, p, ")") {
        Some(next) => Ok(skip_spaces_at(s, next)),
        None => Err(FilterParseError { offset: p, kind: FilterErrorKind::ExpectedClose }),
    }
}

fn bool_at(s: &Vec<char>, pos: usize) -> (got: Result<(bool, usize), FilterParseError>)
    requires
        pos <= s@.len(),
    ensures
        match parse_bool(s@, pos as int) {
            Ok((flag, end)) => got is Ok && got->Ok_0.0 == flag && got->Ok_0.1 == end && end
                <= s@.len(),
            Err(e) => got is Err && got->Err_0 == e,
        },
{
    let p = skip_spaces_at(s, pos);
    match tag_end(s, p, "true") {
        Some(next) => Ok((true, skip_spaces_at(s, next))),
        None => match tag_end(s, p, "false") {
            Some(next) => Ok((false, skip_spaces_at(s, next))),
            None => Err(FilterParseError { offset: p, kind: FilterErrorKind::ExpectedBool }),
        },
    }
}

fn flag_at(s: &Vec<char>, pos: usize) -> (got: Result<(bool, usize), FilterParseError>)
    requires
        pos <= s@.len(),
    ensures
        match parse_flag(s@, pos as int) {
            Ok((flag, end)) => got is Ok && got->Ok_0.0 == flag && got->Ok_0.1 == end && end
                <= s@.len(),
            Err(e) => got is Err && got->Err_0 == e,
        },
{
    match bool_at(s, pos) {
        Ok((flag, next)) => match close_at(s, next) {
            Ok(end) => Ok((flag, end)),
            Err(e) => Err(e),
        },
        Err(e) => Err(e),
    }
}

fn value_at(s: &Vec<char>, pos: usize) -> (got: Result<(usize, usize, usize), FilterParseError>)
    requires
        pos <= s@.len(),
    ensures
        match parse_value(s@, pos as int) {
            Ok((from, to, end)) => got is Ok && got->Ok_0.0 == from && got->Ok_0.1 == to
                && got->Ok_0.2 == end && from <= to <= s@.len() && end <= s@.len(),
            Err(e) => got is Err && got->Err_0 == e,
        },
{
    let from = skip_spaces_at(s, pos);
    let to = value_end_at(s, from);
    if to == from {
        return Err(FilterParseError { offset: from, kind: FilterErrorKind::ExpectedValue });
    }
    match close_at(s, to) {
        Ok(end) => Ok((from, to, end)),
        Err(e) => Err(e),
    }
}

fn property_at(s: &Vec<char>, pos: usize) -> (got: Option<
    Result<(GraphFilterProperty, usize), FilterParseError>,
>)
    requires
        pos <= s@.len(),
    ensures
        match parse_property(s@, pos as int) {
            Some(Ok((model, end))) => got is Some && got->0 is Ok && got->0->Ok_0.0@ == model
                && got->0->Ok_0.1 == end && end <= s@.len(),
            Some(Err(e)) => got is Some && got->0 is Err && got->0->Err_0 == e,
            None => got is None,
        },
{
    let p = skip_spaces_at(s, pos);
    if let Some(next) = tag_end(s, p, "name(") {
        return Some(
            match value_at(s, next) {
                Ok((from, to, end)) => Ok((GraphFilterProperty::Name(string_of(s, from, to)), end)),
                Err(e) => Err(e),
            },
        );
    }
    if let Some(next) = tag_end(s, p, "version(") {
        return Some(
            match value_at(s, next) {
                Ok((from, to, end)) => {
                    let text = string_of(s, from, to);
                    match Version::parse(text.as_str()) {
                        Some(version) => Ok((GraphFilterProperty::Version(version), end)),
                        None => Err(
                            FilterParseError { offset: from, kind: FilterErrorKind::BadVersion },
                        ),
                    }
                },
                Err(e) => Err(e),
            },
        );
    }
    if let Some(next) = tag_end(s, p, "is_root(") {
        return Some(
            match flag_at(s, next) {
                Ok((flag, end)) => Ok((GraphFilterProperty::IsRoot(flag), end)),
                Err(e) => Err(e),
            },
        );
    }
    if let Some(next) = tag_end(s, p, "is_workspace_member(") {
        return Some(
            match flag_at(s, next) {
                Ok((flag, end)) => Ok((GraphFilterProperty::IsWorkspaceMember(flag), end)),
                Err(e) => Err(e),
            },
        );
    }
    if let Some(next) = tag_end(s, p, "is_third_party(") {
        return Some(
            match flag_at(s, next) {
                Ok((flag, end)) => Ok((GraphFilterProperty::IsThirdParty(flag), end)),
                Err(e) => Err(e),
            },
        );
    }
    if let Some(next) = tag_end(s, p, "is_dev_only(") {
        return Some(
            match flag_at(s, next) {
                Ok((flag, end)) => Ok((GraphFilterProperty::IsDevOnly(flag), end)),
                Err(e) => Err(e),
            },
        );
    }
    None
}

/// The value of `any` over a list is made of the values of its members.
pub proof fn lemma_any_model(queries: Vec<GraphFilterQuery>)
    ensures
        GraphFilterQuery::Any(queries)@ == QueryModel::Any(query_views(queries@)),
{
    let direct = query_model(GraphFilterQuery::Any(queries));
    assert(direct->Any_0 =~= query_views(queries@));
}

/// The value of `all` over a list is made of the values of its members.
pub proof fn lemma_all_model(queries: Vec<GraphFilterQuery>)
    ensures
        GraphFilterQuery::All(queries)@ == QueryModel::All(query_views(queries@)),
{
    let direct = query_model(GraphFilterQuery::All(queries));
    assert(direct->All_0 =~= query_views(queries@));
}

fn query_at(s: &Vec<char>, pos: usize) -> (got: Result<(GraphFilterQuery, usize), FilterParseError>)
    requires
        pos <= s@.len(),
    ensures
        query_outcome(got, parse_query(s@, pos as int)),
        got is Ok ==> got->Ok_0.1 <= s@.len(),
    decreases s@.len() - pos, 0int,
{
    let p = skip_spaces_at(s, pos);
    if let Some(next) = tag_end(s, p, "any(") {
        let fresh: Vec<GraphFilterQuery> = Vec::new();
        assert(query_views(fresh@) =~= Seq::<QueryModel>::empty());
        return match list_at(s, next, fresh) {
            Ok((queries, after)) => match close_at(s, after) {
                Ok(end) => {
                    proof {
                        lemma_any_model(queries);
                    }
                    Ok((GraphFilterQuery::Any(queries), end))
                },
                Err(e) => Err(e),
            },
            Err(e) => Err(e),
        };
    }
    if let Some(next) = tag_end(s, p, "all(") {
        let fresh: Vec<GraphFilterQuery> = Vec::new();
        assert(query_views(fresh@) =~= Seq::<QueryModel>::empty());
        return match list_at(s, next, fresh) {
            Ok((queries, after)) => match close_at(s, after) {
                Ok(end) => {
                    proof {
                        lemma_all_model(queries);
                    }
                    Ok((GraphFilterQuery::All(queries), end))
                },
                Err(e) => Err(e),
            },
            Err(e) => Err(e),
        };
    }
    if let Some(next) = tag_end(s, p, "not(") {
        return match query_at(s, next) {
            Ok((query, after)) => match close_at(s, after) {
                Ok(end) => Ok((GraphFilterQuery::Not(Box::new(query)), end)),
                Err(e) => Err(e),
            },
            Err(e) => Err(e),
        };
    }
    match property_at(s, pos) {
        Some(Ok((property, end))) => Ok((GraphFilterQuery::Prop(property), end)),
        Some(Err(e)) => Err(e),
        None => Err(FilterParseError { offset: p, kind: FilterErrorKind::ExpectedQuery }),
    }
}

fn list_at(s: &Vec<char>, pos: usize, found: Vec<GraphFilterQuery>) -> (got: Result<
    (Vec<GraphFilterQuery>, usize),
    FilterParseError,
>)
    requires
        pos <= s@.len(),
    ensures
        match parse_list(s@, pos as int, query_views(found@)) {
            Ok((models, end)) => got is Ok && query_views(got->Ok_0.0@) == models && got->Ok_0.1
                == end && end <= s@.len(),
            Err(e) => got is Err && got->Err_0 == e,
        },
    decreases s@.len() - pos, 1int,
{
    let mut found = found;
    let ghost before = query_views(found@);
    match query_at(s, pos) {
        Ok((query, next)) => {
            let count = found.len();
            found.push(query);
            assert(query_views(found@) =~= before.push(query@));
            match tag_end(s, next, ",") {
                Some(after) => {
                    proof {
                        lemma_query_advances(s@, pos as int);
                    }
                    list_at(s, after, found)
                },
                None => {
                    if count >= 1 {
                        Ok((found, next))
                    } else {
                        Err(FilterParseError { offset: next, kind: FilterErrorKind::ExpectedComma })
                    }
                },
            }
        },
        Err(e) => Err(e),
    }
}

/// A query that parses ends at or behind its start, inside the text.
proof fn lemma_query_advances(s: Seq<char>, pos: int)
    requires
        0 <= pos <= s.len(),
    ensures
        match parse_query(s, pos) {
            Ok((_, end)) => pos <= end <= s.len(),
            Err(_) => true,
        },
    decreases s.len() - pos, 0int,
{
    let p = skip_spaces(s, pos);
    lemma_skip_spaces(s, pos);
    if at_tag(s, p, "any("@) {
        match parse_list(s, p + "any("@.len(), Seq::empty()) {
            Ok((queries, next)) => {
                lemma_list_advances(s, p + "any("@.len(), Seq::empty());
                lemma_close_advances(s, next);
            },
            Err(_) => {},
        }
    } else if at_tag(s, p, "all("@) {
        match parse_list(s, p + "all("@.len(), Seq::empty()) {
            Ok((queries, next)) => {
                lemma_list_advances(s, p + "all("@.len(), Seq::empty());
                lemma_close_advances(s, next);
            },
            Err(_) => {},
        }
    } else if at_tag(s, p, "not("@) {
        match parse_query(s, p + "not("@.len()) {
            Ok((query, next)) => {
                lemma_query_advances(s, p + "not("@.len());
                lemma_close_advances(s, next);
            },
            Err(_) => {},
        }
    } else {
        lemma_property_advances(s, pos);
    }
}

proof fn lemma_list_advances(s: Seq<char>, pos: int, found: Seq<QueryModel>)
    requires
        0 <= pos <= s.len(),
    ensures
        match parse_list(s, pos, found) {
            Ok((_, end)) => pos <= end <= s.len(),
            Err(_) => true,
        },
    decreases s.len() - pos, 1int,
{
    lemma_query_advances(s, pos);
    match parse_query(s, pos) {
        Ok((query, next)) => {
            if at_tag(s, next, ","@) && next >= pos {
                lemma_list_advances(s, next + ","@.len(), found.push(query));
            }
        },
        Err(_) => {},
    }
}

proof fn lemma_close_advances(s: Seq<char>, pos: int)
    requires
        0 <= pos <= s.len(),
    ensures
        match parse_close(s, pos) {
            Ok(end) => pos <= end <= s.len(),
            Err(_) => true,
        },
{
    lemma_skip_spaces(s, pos);
    let p = skip_spaces(s, pos);
    if at_tag(s, p, ")"@) {
        lemma_skip_spaces(s, p + ")"@.len());
    }
}

proof fn lemma_flag_advances(s: Seq<char>, pos: int)
    requires
        0 <= pos <= s.len(),
    ensures
        match parse_flag(s, pos) {
            Ok((_, end)) => pos <= end <= s.len(),
            Err(_) => true,
        },
{
    lemma_skip_spaces(s, pos);
    let p = skip_spaces(s, pos);
    if at_tag(s, p, "true"@) {
        lemma_skip_spaces(s, p + "true"@.len());
        lemma_close_advances(s, after_tag(s, p, "true"@));
    } else if at_tag(s, p, "false"@) {
        lemma_skip_spaces(s, p + "false"@.len());
        lemma_close_advances(s, after_tag(s, p, "false"@));
    }
}

proof fn lemma_value_advances(s: Seq<char>, pos: int)
    requires
        0 <= pos <= s.len(),
    ensures
        match parse_value(s, pos) {
            Ok((from, to, end)) => pos <= from <= to <= end <= s.len(),
            Err(_) => true,
        },
{
    lemma_skip_spaces(s, pos);
    let from = skip_spaces(s, pos);
    lemma_value_end(s, from);
    lemma_close_advances(s, value_end(s, from));
}

proof fn lemma_property_advances(s: Seq<char>, pos: int)
    requires
        0 <= pos <= s.len(),
    ensures
        match parse_property(s, pos) {
            Some(Ok((_, end))) => pos <= end <= s.len(),
            _ => true,
        },
{
    lemma_skip_spaces(s, pos);
    let p = skip_spaces(s, pos);
    if at_tag(s, p, "name("@) {
        lemma_value_advances(s, p + "name("@.len());
    } else if at_tag(s, p, "version("@) {
        lemma_value_advances(s, p + "version("@.len());
    } else if at_tag(s, p, "is_root("@) {
        lemma_flag_advances(s, p + "is_root("@.len());
    } else if at_tag(s, p, "is_workspace_member("@) {
        lemma_flag_advances(s, p + "is_workspace_member("@.len());
    } else if at_tag(s, p, "is_third_party("@) {
        lemma_flag_advances(s, p + "is_third_party("@.len());
    } else if at_tag(s, p, "is_dev_only("@) {
        lemma_flag_advances(s, p + "is_dev_only("@.len());
    }
}

impl GraphFilter {
    /// Parses the written form of a filter, such as
    /// `exclude(any(is_dev_only(true), name(serde_derive)))`. Spaces, tabs
    /// and line breaks may stand between the tokens.
    pub fn from_str(text: &str) -> (parsed: Result<GraphFilter, FilterParseError>)
        ensures
            match parse_filter(text@) {
                Ok(model) => parsed is Ok && parsed->Ok_0@ == model,
                Err(e) => parsed is Err && parsed->Err_0 == e,
            },
    {
        let s = chars_of(text);
        let p = skip_spaces_at(&s, 0);
        let keeps = tag_end(&s, p, "include(");
        let drops = tag_end(&s, p, "exclude(");
        proof {
            reveal_strlit("include(");
            reveal_strlit("exclude(");
        }
        let next = match (keeps, drops) {
            (Some(next), _) => next,
            (None, Some(next)) => next,
            (None, None) => {
                return Err(FilterParseError { offset: p, kind: FilterErrorKind::ExpectedFilter });
            },
        };
        match query_at(&s, next) {
            Ok((query, after)) => match close_at(&s, after) {
                Ok(end) => {
                    if end == s.len() {
                        if keeps.is_some() {
                            Ok(GraphFilter::Include(query))
                        } else {
                            Ok(GraphFilter::Exclude(query))
                        }
                    } else {
                        Err(FilterParseError { offset: end, kind: FilterErrorKind::TrailingInput })
                    }
                },
                Err(e) => Err(e),
            },
            Err(e) => Err(e),
        }
    }
}

} // verus!
