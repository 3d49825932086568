//! Route tables of any handlers.

use book_routes::book::{book_mount_point, build_book_routers, build_book_table, BookHandler};
use book_routes::method::Method;
use book_routes::pattern::{Param, Pattern};
use book_routes::router::Router;

fn site() -> Router<&'static str> {
    Router::new()
        .route(Method::Get, Pattern::root(), "home")
        .route(Method::Get, Pattern::root().literal("health"), "health")
        .route(Method::Get, Pattern::root().literal("authors").param("author_id"), "show_author")
        .route(Method::Put, Pattern::root().literal("authors").param("author_id"), "put_author")
}

fn parent() -> Router<BookHandler> {
    Router::new()
        .route(Method::Get, Pattern::root(), BookHandler::ShowBookList)
        .route(Method::Get, Pattern::root().literal("bookshelf"), BookHandler::ShowBookList)
        .route(
            Method::Put,
            Pattern::root().literal("archive").param("book_id"),
            BookHandler::UpdateBook,
        )
}

fn answer<H: Copy>(router: &Router<H>, method: Method, path: &str) -> Option<(H, Vec<Param>)> {
    router.dispatch(method, path).map(|m| (*m.handler, m.params))
}

#[test]
fn empty_router_selects_nothing() {
    let router: Router<u8> = Router::new();
    assert_eq!(router.len(), 0);
    assert!(router.dispatch(Method::Get, "/").is_none());
    assert!(router.dispatch(Method::Get, "/books").is_none());
}

#[test]
fn route_adds_at_the_end() {
    let router = site();
    assert_eq!(router.len(), 4);
    assert_eq!(router.get(0).handler, "home");
    assert_eq!(router.get(1).pattern.text(), "/health");
    assert_eq!(router.get(3).method, Method::Put);
    assert_eq!(router.get(3).pattern.text(), "/authors/{author_id}");
}

#[test]
fn dispatch_takes_method_and_path() {
    let router = site();
    assert_eq!(answer(&router, Method::Get, "/"), Some(("home", vec![])));
    assert_eq!(answer(&router, Method::Get, "/health"), Some(("health", vec![])));
    assert_eq!(
        answer(&router, Method::Put, "/authors/ann"),
        Some(("put_author", vec![Param { name: "author_id".into(), value: "ann".into() }]))
    );
    assert_eq!(answer(&router, Method::Post, "/health"), None);
    assert_eq!(answer(&router, Method::Get, "/health/"), None);
    assert_eq!(answer(&router, Method::Get, "/authors"), None);
}

#[test]
fn claims_tells_conflicts() {
    let router = site();
    assert!(router.claims(Method::Get, &Pattern::root()));
    assert!(router.claims(Method::Get, &Pattern::root().literal("health")));
    assert!(router.claims(Method::Get, &Pattern::root().param("page")));
    assert!(router.claims(Method::Get, &Pattern::root().literal("authors").literal("me")));
    assert!(router.claims(Method::Put, &Pattern::root().param("kind").param("id")));
    assert!(!router.claims(Method::Post, &Pattern::root()));
    assert!(!router.claims(Method::Put, &Pattern::root().literal("health")));
    assert!(!router.claims(Method::Get, &Pattern::root().literal("books")));
    assert!(!router.claims(Method::Delete, &Pattern::root().literal("authors").param("id")));
}

#[test]
fn conflicts_with_tells_conflicts_between_tables() {
    let books = build_book_routers();
    assert!(books.conflicts_with(&build_book_routers()));
    assert!(!books.conflicts_with(&Router::new()));
    assert!(!parent().conflicts_with(&books));
    assert!(!books.conflicts_with(&parent()));
    let shadow = Router::new().route(
        Method::Get,
        Pattern::root().param("resource"),
        BookHandler::ShowBook,
    );
    assert!(shadow.conflicts_with(&books));
    assert!(books.conflicts_with(&shadow));
    assert!(build_book_table().conflicts_with(&books));
    let root_only = Router::new().route(Method::Get, Pattern::root(), BookHandler::ShowBookList);
    assert!(!root_only.conflicts_with(&books));
}

#[test]
fn merge_keeps_both_tables_in_order() {
    let merged = parent().merge(build_book_routers());
    assert_eq!(merged.len(), 8);
    assert_eq!(merged.get(0), parent().get(0));
    assert_eq!(merged.get(2), parent().get(2));
    assert_eq!(merged.get(3), build_book_routers().get(0));
    assert_eq!(merged.get(7), build_book_routers().get(4));
}

#[test]
fn prefixed_puts_the_prefix_before_each_pattern() {
    let moved = site().prefixed(&Pattern::root().literal("v1").param("tenant"));
    assert_eq!(moved.len(), 4);
    assert_eq!(moved.get(0).pattern.text(), "/v1/{tenant}");
    assert_eq!(moved.get(1).pattern.text(), "/v1/{tenant}/health");
    assert_eq!(moved.get(2).pattern.text(), "/v1/{tenant}/authors/{author_id}");
    assert_eq!(moved.get(2).handler, "show_author");
    assert_eq!(moved.get(3).method, Method::Put);
    assert_eq!(
        answer(&moved, Method::Get, "/v1/acme/authors/ann"),
        Some((
            "show_author",
            vec![
                Param { name: "tenant".into(), value: "acme".into() },
                Param { name: "author_id".into(), value: "ann".into() },
            ]
        ))
    );
    assert_eq!(answer(&moved, Method::Get, "/health"), None);
}

#[test]
fn prefixed_by_root_changes_nothing() {
    assert_eq!(site().prefixed(&Pattern::root()), site());
}

#[test]
fn nest_is_merge_of_prefixed() {
    let nested = parent().nest(&book_mount_point(), build_book_table());
    let merged = parent().merge(build_book_table().prefixed(&book_mount_point()));
    assert_eq!(nested, merged);
    assert_eq!(nested, parent().merge(build_book_routers()));
}

#[test]
fn mounting_books_keeps_requests_outside_books() {
    let alone = parent();
    let mounted = parent().merge(build_book_routers());
    let methods = [Method::Get, Method::Post, Method::Put, Method::Delete, Method::Head];
    let paths = ["/", "/bookshelf", "/archive/42", "/archive", "/book", "/nothing/here", "", "/x/"];
    for path in paths {
        for method in methods {
            assert_eq!(
                answer(&mounted, method, path),
                answer(&alone, method, path),
                "{method:?} {path:?}"
            );
        }
    }
    assert_eq!(
        answer(&mounted, Method::Get, "/bookshelf"),
        Some((BookHandler::ShowBookList, vec![]))
    );
    assert_eq!(answer(&mounted, Method::Get, "/archive/42"), None);
}

#[test]
fn mounting_books_adds_only_routes_under_books() {
    let alone = parent();
    let mounted = parent().nest(&book_mount_point(), build_book_table());
    let mut i = 0;
    while i < mounted.len() {
        if i < alone.len() {
            assert_eq!(mounted.get(i), alone.get(i));
        } else {
            assert!(mounted.get(i).pattern.text().starts_with("/books"));
        }
        i += 1;
    }
    assert_eq!(mounted.len(), alone.len() + 5);
}

#[test]
fn mounted_books_answer_as_alone() {
    let books = build_book_routers();
    let mounted = parent().merge(build_book_routers());
    for path in ["/books", "/books/42", "/books/a%20b", "/books/", "/books/42/pages"] {
        for method in [Method::Get, Method::Post, Method::Put, Method::Delete] {
            assert_eq!(answer(&mounted, method, path), answer(&books, method, path));
        }
    }
}
