//! The book routes, request by request.

use book_routes::book::{book_mount_point, build_book_routers, build_book_table, BookHandler};
use book_routes::method::Method;
use book_routes::pattern::Param;
use book_routes::router::{RouteMatch, Router};

const ALL_METHODS: [Method; 9] = [
    Method::Connect,
    Method::Delete,
    Method::Get,
    Method::Head,
    Method::Options,
    Method::Patch,
    Method::Post,
    Method::Put,
    Method::Trace,
];

fn book_id(value: &str) -> Vec<Param> {
    vec![Param { name: "book_id".to_string(), value: value.to_string() }]
}

fn answer(found: Option<RouteMatch<'_, BookHandler>>) -> Option<(BookHandler, Vec<Param>)> {
    found.map(|m| (*m.handler, m.params))
}

fn listing(router: &Router<BookHandler>) -> Vec<(Method, String, BookHandler)> {
    let mut rows = Vec::new();
    let mut i = 0;
    while i < router.len() {
        let route = router.get(i);
        rows.push((route.method, route.pattern.text(), route.handler));
        i += 1;
    }
    rows
}

#[test]
fn post_books_registers_a_book() {
    let router = build_book_routers();
    assert_eq!(
        answer(router.dispatch(Method::Post, "/books")),
        Some((BookHandler::RegisterBook, vec![]))
    );
}

#[test]
fn get_books_lists_the_books() {
    let router = build_book_routers();
    assert_eq!(
        answer(router.dispatch(Method::Get, "/books")),
        Some((BookHandler::ShowBookList, vec![]))
    );
}

#[test]
fn get_book_shows_it() {
    let router = build_book_routers();
    assert_eq!(
        answer(router.dispatch(Method::Get, "/books/42")),
        Some((BookHandler::ShowBook, book_id("42")))
    );
}

#[test]
fn post_book_updates_it() {
    let router = build_book_routers();
    assert_eq!(
        answer(router.dispatch(Method::Post, "/books/42")),
        Some((BookHandler::UpdateBook, book_id("42")))
    );
}

#[test]
fn delete_book_deletes_it() {
    let router = build_book_routers();
    assert_eq!(
        answer(router.dispatch(Method::Delete, "/books/42")),
        Some((BookHandler::DeleteBook, book_id("42")))
    );
}

#[test]
fn put_book_selects_nothing() {
    let router = build_book_routers();
    assert!(router.dispatch(Method::Put, "/books/42").is_none());
}

#[test]
fn unlisted_methods_select_nothing() {
    let router = build_book_routers();
    for method in ALL_METHODS {
        let on_collection = router.dispatch(method, "/books").is_some();
        assert_eq!(on_collection, method == Method::Post || method == Method::Get);
        let on_item = router.dispatch(method, "/books/7").is_some();
        assert_eq!(
            on_item,
            method == Method::Get || method == Method::Post || method == Method::Delete
        );
    }
}

#[test]
fn identifier_is_bound_as_it_stands() {
    let router = build_book_routers();
    let ids = ["42", "a%20b", "%2F", "0195f0c4-8a3e-7d7c-b1f3-2f0e6a4f9c11", "{book_id}", "é", " "];
    for id in ids {
        let path = format!("/books/{id}");
        assert_eq!(
            answer(router.dispatch(Method::Get, &path)),
            Some((BookHandler::ShowBook, book_id(id)))
        );
    }
}

#[test]
fn paths_that_are_no_book_path_select_nothing() {
    let router = build_book_routers();
    for path in [
        "",
        "/",
        "books",
        "/books/",
        "//books",
        "/books//42",
        "/books/42/",
        "/books/42/pages",
        "/bookshelf",
        "/book",
        "/Books",
        "/authors/42",
    ] {
        for method in ALL_METHODS {
            assert!(router.dispatch(method, path).is_none(), "{method:?} {path:?}");
        }
    }
}

#[test]
fn table_lists_the_five_routes() {
    let table = build_book_table();
    assert_eq!(
        listing(&table),
        vec![
            (Method::Post, "/".to_string(), BookHandler::RegisterBook),
            (Method::Get, "/".to_string(), BookHandler::ShowBookList),
            (Method::Get, "/{book_id}".to_string(), BookHandler::ShowBook),
            (Method::Post, "/{book_id}".to_string(), BookHandler::UpdateBook),
            (Method::Delete, "/{book_id}".to_string(), BookHandler::DeleteBook),
        ]
    );
}

#[test]
fn router_lists_the_five_routes_under_the_prefix() {
    let router = build_book_routers();
    assert_eq!(book_mount_point().text(), "/books");
    assert_eq!(
        listing(&router),
        vec![
            (Method::Post, "/books".to_string(), BookHandler::RegisterBook),
            (Method::Get, "/books".to_string(), BookHandler::ShowBookList),
            (Method::Get, "/books/{book_id}".to_string(), BookHandler::ShowBook),
            (Method::Post, "/books/{book_id}".to_string(), BookHandler::UpdateBook),
            (Method::Delete, "/books/{book_id}".to_string(), BookHandler::DeleteBook),
        ]
    );
}

#[test]
fn two_builds_hold_the_same_routes() {
    let first = build_book_routers();
    let second = build_book_routers();
    assert_eq!(listing(&first), listing(&second));
    assert_eq!(first, second);
    assert_eq!(first.len(), 5);
}

#[test]
fn a_build_is_not_changed_by_using_another() {
    let first = build_book_routers();
    let second = build_book_routers();
    let before = listing(&first);
    let grown = second.merge(Router::new());
    assert_eq!(listing(&grown), before);
    assert_eq!(listing(&first), before);
}

#[test]
fn nesting_the_table_gives_the_router() {
    let nested = Router::new().nest(&book_mount_point(), build_book_table());
    assert_eq!(nested, build_book_routers());
    let prefixed = build_book_table().prefixed(&book_mount_point());
    assert_eq!(prefixed, build_book_routers());
}

#[test]
fn handlers_have_their_names() {
    assert_eq!(BookHandler::RegisterBook.name(), "register_book");
    assert_eq!(BookHandler::ShowBookList.name(), "show_book_list");
    assert_eq!(BookHandler::ShowBook.name(), "show_book");
    assert_eq!(BookHandler::UpdateBook.name(), "update_book");
    assert_eq!(BookHandler::DeleteBook.name(), "delete_book");
}
