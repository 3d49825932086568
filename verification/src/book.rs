//! The routes of the book resource.
//!
//! Five routes bind a method and a pattern to a handler. They are built as a
//! table of their own, relative to the resource, and then nested under
//! `/books`:
//!
//! | method | path               | handler        |
//! |--------|--------------------|----------------|
//! | POST   | `/books`           | register_book  |
//! | GET    | `/books`           | show_book_list |
//! | GET    | `/books/{book_id}` | show_book      |
//! | POST   | `/books/{book_id}` | update_book    |
//! | DELETE | `/books/{book_id}` | delete_book    |
//!
//! An update is a POST to the book's own path.

use crate::method::Method;
use crate::path::{
    is_segment, joined, lemma_joined_push, lemma_segments_of, segments_of, splits_into,
};
use crate::pattern::{
    begins_with, captures, pattern_accepts, pattern_text, segment_text, valid_pattern, ParamView,
    Pattern, SegmentView,
};
use crate::router::{
    dispatch_of, exclusive, lemma_dispatch_selected, lemma_nest_adds_under_prefix,
    lemma_nest_keeps_outside, lemma_no_route_selects, lemma_one_route_selects,
    lemma_prefixed_exclusive, path_under, prefixed, route_of, route_selects, routes_conflict,
    RouteMatchView, RouteView, Router,
};
use vstd::prelude::*;

verus! {

/// The handlers of the book resource.
#[derive(Clone, Copy, Debug, PartialEq, Eq, Hash, Structural)]
pub enum BookHandler {
    /// Creates a book.
    RegisterBook,
    /// Lists the books.
    ShowBookList,
    /// Shows one book.
    ShowBook,
    /// Updates one book.
    UpdateBook,
    /// Deletes one book.
    DeleteBook,
}

/// The name of a handler.
pub open spec fn handler_name(handler: BookHandler) -> Seq<char> {
    match handler {
        BookHandler::RegisterBook => "register_book"@,
        BookHandler::ShowBookList => "show_book_list"@,
        BookHandler::ShowBook => "show_book"@,
        BookHandler::UpdateBook => "update_book"@,
        BookHandler::DeleteBook => "delete_book"@,
    }
}

impl BookHandler {
    /// The name of this handler.
    pub fn name(self) -> (name: &'static str)
        ensures
            name@ == handler_name(self),
    {
        match self {
            BookHandler::RegisterBook => "register_book",
            BookHandler::ShowBookList => "show_book_list",
            BookHandler::ShowBook => "show_book",
            BookHandler::UpdateBook => "update_book",
            BookHandler::DeleteBook => "delete_book",
        }
    }
}

/// The text `books`, the one segment of the prefix.
pub open spec fn books_text() -> Seq<char> {
    seq!['b', 'o', 'o', 'k', 's']
}

/// The text `book_id`, the name of the parameter that binds a book's
/// identifier.
pub open spec fn book_id_text() -> Seq<char> {
    seq!['b', 'o', 'o', 'k', '_', 'i', 'd']
}

/// The prefix under which the book routes are mounted: `/books`.
pub open spec fn book_prefix() -> Seq<SegmentView> {
    seq![SegmentView::Literal(books_text())]
}

/// The pattern of the resource as a whole, relative to the prefix: `/`.
pub open spec fn collection_pattern() -> Seq<SegmentView> {
    Seq::empty()
}

/// The pattern of one book, relative to the prefix: `/{book_id}`.
pub open spec fn item_pattern() -> Seq<SegmentView> {
    seq![SegmentView::Param(book_id_text())]
}

/// The five routes, relative to the prefix.
pub open spec fn book_table() -> Seq<RouteView<BookHandler>> {
    seq![
        route_of(Method::Post, collection_pattern(), BookHandler::RegisterBook),
        route_of(Method::Get, collection_pattern(), BookHandler::ShowBookList),
        route_of(Method::Get, item_pattern(), BookHandler::ShowBook),
        route_of(Method::Post, item_pattern(), BookHandler::UpdateBook),
        route_of(Method::Delete, item_pattern(), BookHandler::DeleteBook),
    ]
}

/// The five routes under the prefix.
pub open spec fn book_routes() -> Seq<RouteView<BookHandler>> {
    prefixed(book_prefix(), book_table())
}

/// The path of the resource as a whole: `/books`.
pub open spec fn collection_path() -> Seq<char> {
    seq!['/'] + books_text()
}

/// The path of the book with the identifier `id`: `/books/` and the
/// identifier.
pub open spec fn item_path(id: Seq<char>) -> Seq<char> {
    collection_path() + seq!['/'] + id
}

/// The identifier in the path of one book, or `None` where `path` is not the
/// path of one book: where it is not `/books/` followed by one segment.
pub open spec fn book_id_of(path: Seq<char>) -> Option<Seq<char>> {
    let lead = item_path(Seq::empty());
    if path.len() > lead.len() && path.take(lead.len() as int) == lead && is_segment(
        path.skip(lead.len() as int),
    ) {
        Some(path.skip(lead.len() as int))
    } else {
        None
    }
}

/// The handler `handler`, no parameter bound.
pub open spec fn plain(handler: BookHandler) -> RouteMatchView<BookHandler> {
    RouteMatchView { handler, params: Seq::empty() }
}

/// The handler `handler`, and `id` bound as the book's identifier.
pub open spec fn with_book_id(handler: BookHandler, id: Seq<char>) -> RouteMatchView<BookHandler> {
    RouteMatchView { handler, params: seq![ParamView { name: book_id_text(), value: id }] }
}

/// What the book routes answer to a request.
pub open spec fn book_answer(method: Method, path: Seq<char>) -> Option<
    RouteMatchView<BookHandler>,
> {
    if path == collection_path() {
        match method {
            Method::Post => Some(plain(BookHandler::RegisterBook)),
            Method::Get => Some(plain(BookHandler::ShowBookList)),
            _ => None,
        }
    } else if let Some(id) = book_id_of(path) {
        match method {
            Method::Get => Some(with_book_id(BookHandler::ShowBook, id)),
            Method::Post => Some(with_book_id(BookHandler::UpdateBook, id)),
            Method::Delete => Some(with_book_id(BookHandler::DeleteBook, id)),
            _ => None,
        }
    } else {
        None
    }
}

/// The prefix under which the book routes are mounted: `/books`.
pub fn book_mount_point() -> (prefix: Pattern)
    ensures
        prefix@ == book_prefix(),
        valid_pattern(prefix@),
{
    proof {
        reveal_strlit("books");
        assert("books"@ =~= books_text());
    }
    Pattern::root().literal("books")
}

/// The pattern of one book, relative to the prefix: `/{book_id}`.
fn book_item_pattern() -> (pattern: Pattern)
    ensures
        pattern@ == item_pattern(),
{
    proof {
        reveal_strlit("book_id");
        assert("book_id"@ =~= book_id_text());
    }
    Pattern::root().param("book_id")
}

/// Builds the table of the five book routes, relative to the prefix.
pub fn build_book_table() -> (router: Router<BookHandler>)
    ensures
        router@ == book_table(),
        exclusive(router@),
{
    Router::new()
        .route(Method::Post, Pattern::root(), BookHandler::RegisterBook)
        .route(Method::Get, Pattern::root(), BookHandler::ShowBookList)
        .route(Method::Get, book_item_pattern(), BookHandler::ShowBook)
        .route(Method::Post, book_item_pattern(), BookHandler::UpdateBook)
        .route(Method::Delete, book_item_pattern(), BookHandler::DeleteBook)
}

/// Builds the router of the book resource: the five book routes, nested
/// under `/books`.
pub fn build_book_routers() -> (router: Router<BookHandler>)
    ensures
        router@ == book_routes(),
        exclusive(router@),
{
    let books_router = build_book_table();
    Router::new().nest(&book_mount_point(), books_router)
}

/// The book routes one by one: each of the five routes of the table, with
/// `/books` before its pattern. No two of them conflict.
pub proof fn lemma_book_routes_listed()
    ensures
        book_routes().len() == 5,
        book_routes()[0] == route_of(Method::Post, book_prefix(), BookHandler::RegisterBook),
        book_routes()[1] == route_of(Method::Get, book_prefix(), BookHandler::ShowBookList),
        book_routes()[2] == route_of(
            Method::Get,
            book_prefix() + item_pattern(),
            BookHandler::ShowBook,
        ),
        book_routes()[3] == route_of(
            Method::Post,
            book_prefix() + item_pattern(),
            BookHandler::UpdateBook,
        ),
        book_routes()[4] == route_of(
            Method::Delete,
            book_prefix() + item_pattern(),
            BookHandler::DeleteBook,
        ),
        forall|i: int|
            0 <= i < 5 ==> begins_with(
                (#[trigger] book_routes()[i]).pattern,
                book_prefix(),
            ),
        exclusive(book_routes()),
{
    let table = book_table();
    assert(book_prefix() + collection_pattern() =~= book_prefix());
    assert forall|i: int, j: int| 0 <= i < j < table.len() implies !routes_conflict(
        #[trigger] table[i],
        #[trigger] table[j],
    ) by {}
    lemma_prefixed_exclusive(book_prefix(), table);
    lemma_nest_adds_under_prefix(
        Seq::<RouteView<BookHandler>>::empty(),
        book_prefix(),
        table,
    );
    assert(Seq::<RouteView<BookHandler>>::empty() + book_routes() =~= book_routes());
}

/// The texts of the two patterns of the book routes: `/books` and
/// `/books/{book_id}`.
pub proof fn lemma_book_pattern_texts()
    ensures
        pattern_text(book_prefix()) == collection_path(),
        pattern_text(book_prefix() + item_pattern()) == item_path(
            seq!['{'] + book_id_text() + seq!['}'],
        ),
{
    let one = book_prefix().map_values(|s: SegmentView| segment_text(s));
    assert(one =~= seq![books_text()]);
    lemma_joined_one(books_text());
    let two = (book_prefix() + item_pattern()).map_values(
        |s: SegmentView| segment_text(s),
    );
    let braced = seq!['{'] + book_id_text() + seq!['}'];
    assert(two =~= seq![books_text(), braced]);
    lemma_joined_two(books_text(), braced);
}

/// One segment, joined.
proof fn lemma_joined_one(a: Seq<char>)
    ensures
        joined(seq![a]) == seq!['/'] + a,
{
    lemma_joined_push(Seq::empty(), a);
    assert(Seq::<Seq<char>>::empty().push(a) =~= seq![a]);
    assert(joined(Seq::empty()) + seq!['/'] + a =~= seq!['/'] + a);
}

/// Two segments, joined.
proof fn lemma_joined_two(a: Seq<char>, b: Seq<char>)
    ensures
        joined(seq![a, b]) == seq!['/'] + a + seq!['/'] + b,
{
    lemma_joined_one(a);
    lemma_joined_push(seq![a], b);
    assert(seq![a].push(b) =~= seq![a, b]);
}

/// The path `/books` has the one segment `books`.
pub proof fn lemma_collection_segments()
    ensures
        segments_of(collection_path()) == Some(seq![books_text()]),
        book_id_of(collection_path()) is None,
{
    lemma_joined_one(books_text());
    lemma_segments_of(collection_path(), seq![books_text()]);
}

/// The path of the book `id` has the two segments `books` and `id`, and `id`
/// is the identifier in it.
pub proof fn lemma_item_segments(id: Seq<char>)
    requires
        is_segment(id),
    ensures
        segments_of(item_path(id)) == Some(seq![books_text(), id]),
        book_id_of(item_path(id)) == Some(id),
        item_path(id) != collection_path(),
{
    lemma_joined_two(books_text(), id);
    lemma_segments_of(item_path(id), seq![books_text(), id]);
    let lead = item_path(Seq::empty());
    assert(lead =~= collection_path() + seq!['/']);
    assert(item_path(id).take(lead.len() as int) =~= lead);
    assert(item_path(id).skip(lead.len() as int) =~= id);
}

/// A path whose identifier `book_id_of` yields is the path of the book with
/// that identifier.
pub proof fn lemma_book_id_path(path: Seq<char>)
    requires
        book_id_of(path) is Some,
    ensures
        is_segment(book_id_of(path).unwrap()),
        path == item_path(book_id_of(path).unwrap()),
{
    let lead = item_path(Seq::empty());
    let id = path.skip(lead.len() as int);
    assert(lead =~= collection_path() + seq!['/']);
    assert(path =~= path.take(lead.len() as int) + id);
    assert(path =~= item_path(id));
}

/// The book routes answer every request as `book_answer` says: a POST or a
/// GET of `/books`, and a GET, a POST or a DELETE of the path of one book,
/// select the handler bound to them, and the path of one book binds the
/// book's identifier; every other request selects no handler.
pub proof fn lemma_book_dispatch(method: Method, path: Seq<char>)
    ensures
        dispatch_of(book_routes(), method, path) == book_answer(method, path),
{
    let routes = book_routes();
    lemma_book_routes_listed();
    reveal_with_fuel(captures, 3);
    if path == collection_path() {
        lemma_collection_segments();
        let segs = seq![books_text()];
        assert(pattern_accepts(book_prefix(), segs));
        assert(captures(book_prefix(), segs) =~= Seq::<ParamView>::empty());
        match method {
            Method::Post => {
                lemma_dispatch_selected(routes, method, path, 0);
            },
            Method::Get => {
                lemma_dispatch_selected(routes, method, path, 1);
            },
            _ => {
                lemma_no_route_selects(routes, method, path);
            },
        }
    } else if let Some(id) = book_id_of(path) {
        lemma_book_id_path(path);
        lemma_item_segments(id);
        let segs = seq![books_text(), id];
        let pattern = book_prefix() + item_pattern();
        assert(pattern_accepts(pattern, segs));
        assert(pattern.drop_last() =~= book_prefix());
        assert(segs.drop_last() =~= seq![books_text()]);
        assert(captures(pattern, segs) =~= seq![ParamView { name: book_id_text(), value: id }]);
        match method {
            Method::Get => {
                lemma_dispatch_selected(routes, method, path, 2);
            },
            Method::Post => {
                lemma_dispatch_selected(routes, method, path, 3);
            },
            Method::Delete => {
                lemma_dispatch_selected(routes, method, path, 4);
            },
            _ => {
                lemma_no_route_selects(routes, method, path);
            },
        }
    } else {
        lemma_no_route_selects(routes, method, path);
        assert forall|i: int| 0 <= i < routes.len() implies !route_selects(
            #[trigger] routes[i],
            method,
            path,
        ) by {
            if route_selects(routes[i], method, path) {
                let segs = segments_of(path).unwrap();
                assert(splits_into(path, segs));
                assert(segs[0] == books_text());
                if i < 2 {
                    assert(segs =~= seq![books_text()]);
                    lemma_joined_one(books_text());
                } else {
                    assert(segs =~= seq![books_text(), segs[1]]);
                    assert(is_segment(segs[1]));
                    lemma_joined_two(books_text(), segs[1]);
                    lemma_item_segments(segs[1]);
                }
            }
        }
    }
}

/// Each of the five defined requests selects the handler bound to it: a POST
/// and a GET of `/books`, and a GET, a POST and a DELETE of the path of any
/// one book, which binds the book's identifier.
pub proof fn lemma_defined_requests(id: Seq<char>)
    requires
        is_segment(id),
    ensures
        dispatch_of(book_routes(), Method::Post, collection_path()) == Some(
            plain(BookHandler::RegisterBook),
        ),
        dispatch_of(book_routes(), Method::Get, collection_path()) == Some(
            plain(BookHandler::ShowBookList),
        ),
        dispatch_of(book_routes(), Method::Get, item_path(id)) == Some(
            with_book_id(BookHandler::ShowBook, id),
        ),
        dispatch_of(book_routes(), Method::Post, item_path(id)) == Some(
            with_book_id(BookHandler::UpdateBook, id),
        ),
        dispatch_of(book_routes(), Method::Delete, item_path(id)) == Some(
            with_book_id(BookHandler::DeleteBook, id),
        ),
{
    lemma_item_segments(id);
    lemma_book_dispatch(Method::Post, collection_path());
    lemma_book_dispatch(Method::Get, collection_path());
    lemma_book_dispatch(Method::Get, item_path(id));
    lemma_book_dispatch(Method::Post, item_path(id));
    lemma_book_dispatch(Method::Delete, item_path(id));
}

/// No request is selected by two of the book routes: a request that selects a
/// handler selects it once.
pub proof fn lemma_selected_once(method: Method, path: Seq<char>, i: int, j: int)
    requires
        0 <= i < book_routes().len(),
        0 <= j < book_routes().len(),
        route_selects(book_routes()[i], method, path),
        route_selects(book_routes()[j], method, path),
    ensures
        i == j,
{
    lemma_book_routes_listed();
    lemma_one_route_selects(book_routes(), method, path, i, j);
}

/// A request with a method that is not bound to its path selects no handler:
/// `/books` answers only POST and GET, the path of one book only GET, POST
/// and DELETE, and no path answers another method.
pub proof fn lemma_unlisted_method(method: Method, path: Seq<char>)
    ensures
        path == collection_path() && method != Method::Post && method != Method::Get
            ==> dispatch_of(book_routes(), method, path) is None,
        method != Method::Get && method != Method::Post && method != Method::Delete
            ==> dispatch_of(book_routes(), method, path) is None,
{
    lemma_book_dispatch(method, path);
}

/// A GET of the path of one book selects `show_book` and binds the path's
/// last segment, whatever characters it holds, as the book's identifier.
pub proof fn lemma_get_shows_book(id: Seq<char>)
    requires
        is_segment(id),
    ensures
        dispatch_of(book_routes(), Method::Get, item_path(id)) == Some(
            with_book_id(BookHandler::ShowBook, id),
        ),
{
    lemma_defined_requests(id);
}

/// Mounting the book routes into a parent table keeps every route of the
/// parent at its place, adds only routes under `/books`, and changes the
/// answer to no request outside `/books`: a request whose path does not begin
/// with the segment `books` is answered as the parent alone answers it.
pub proof fn lemma_mount_keeps_outside(
    parent: Seq<RouteView<BookHandler>>,
    method: Method,
    path: Seq<char>,
)
    ensures
        (parent + book_routes()).len() == parent.len() + 5,
        forall|i: int|
            0 <= i < parent.len() ==> (#[trigger] (parent + book_routes())[i]) == parent[i],
        forall|i: int|
            parent.len() <= i < parent.len() + 5 ==> begins_with(
                (#[trigger] (parent + book_routes())[i]).pattern,
                book_prefix(),
            ),
        !path_under(book_prefix(), path) ==> dispatch_of(parent + book_routes(), method, path)
            == dispatch_of(parent, method, path),
{
    lemma_nest_adds_under_prefix(parent, book_prefix(), book_table());
    if !path_under(book_prefix(), path) {
        lemma_nest_keeps_outside(parent, book_prefix(), book_table(), method, path);
    }
}

} // verus!
