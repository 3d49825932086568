//! The book routes, bound to handlers in an axum router, select for each
//! request the handler that the table names.

use axum::body::Body;
use axum::extract::{Path, State};
use axum::http::{Request, StatusCode};
use axum::routing::{on, MethodFilter, MethodRouter};
use book_routes::book::{book_mount_point, build_book_routers, build_book_table, BookHandler};
use book_routes::method::Method;
use std::future::Future;
use std::sync::{Arc, Mutex};
use std::task::{Context, Poll, Wake, Waker};
use tower_service::Service;

type Calls = Arc<Mutex<Vec<(BookHandler, Option<String>)>>>;

struct Idle;

impl Wake for Idle {
    fn wake(self: Arc<Self>) {}
}

fn finish<F: Future>(future: F) -> F::Output {
    let waker = Waker::from(Arc::new(Idle));
    let mut context = Context::from_waker(&waker);
    let mut future = Box::pin(future);
    loop {
        if let Poll::Ready(output) = future.as_mut().poll(&mut context) {
            return output;
        }
    }
}

async fn register_book(State(calls): State<Calls>) {
    calls.lock().unwrap().push((BookHandler::RegisterBook, None));
}

async fn show_book_list(State(calls): State<Calls>) {
    calls.lock().unwrap().push((BookHandler::ShowBookList, None));
}

async fn show_book(State(calls): State<Calls>, Path(book_id): Path<String>) {
    calls.lock().unwrap().push((BookHandler::ShowBook, Some(book_id)));
}

async fn update_book(State(calls): State<Calls>, Path(book_id): Path<String>) {
    calls.lock().unwrap().push((BookHandler::UpdateBook, Some(book_id)));
}

async fn delete_book(State(calls): State<Calls>, Path(book_id): Path<String>) {
    calls.lock().unwrap().push((BookHandler::DeleteBook, Some(book_id)));
}

fn filter(method: Method) -> MethodFilter {
    match method {
        Method::Connect => MethodFilter::CONNECT,
        Method::Delete => MethodFilter::DELETE,
        Method::Get => MethodFilter::GET,
        Method::Head => MethodFilter::HEAD,
        Method::Options => MethodFilter::OPTIONS,
        Method::Patch => MethodFilter::PATCH,
        Method::Post => MethodFilter::POST,
        Method::Put => MethodFilter::PUT,
        Method::Trace => MethodFilter::TRACE,
    }
}

fn http_method(method: Method) -> axum::http::Method {
    match method {
        Method::Connect => axum::http::Method::CONNECT,
        Method::Delete => axum::http::Method::DELETE,
        Method::Get => axum::http::Method::GET,
        Method::Head => axum::http::Method::HEAD,
        Method::Options => axum::http::Method::OPTIONS,
        Method::Patch => axum::http::Method::PATCH,
        Method::Post => axum::http::Method::POST,
        Method::Put => axum::http::Method::PUT,
        Method::Trace => axum::http::Method::TRACE,
    }
}

fn served(calls: Calls) -> axum::Router {
    let table = build_book_table();
    let mut books_router = axum::Router::new();
    let mut i = 0;
    while i < table.len() {
        let route = table.get(i);
        let bound: MethodRouter<Calls> = match route.handler {
            BookHandler::RegisterBook => on(filter(route.method), register_book),
            BookHandler::ShowBookList => on(filter(route.method), show_book_list),
            BookHandler::ShowBook => on(filter(route.method), show_book),
            BookHandler::UpdateBook => on(filter(route.method), update_book),
            BookHandler::DeleteBook => on(filter(route.method), delete_book),
        };
        books_router = books_router.route(&route.pattern.text(), bound);
        i += 1;
    }
    axum::Router::new().nest(&book_mount_point().text(), books_router).with_state(calls)
}

fn send(method: Method, path: &str) -> (StatusCode, Vec<(BookHandler, Option<String>)>) {
    let calls: Calls = Arc::new(Mutex::new(Vec::new()));
    let mut app = served(calls.clone());
    let request =
        Request::builder().method(http_method(method)).uri(path).body(Body::empty()).unwrap();
    let response = finish(app.call(request)).unwrap();
    let made = calls.lock().unwrap().clone();
    (response.status(), made)
}

fn expected(method: Method, path: &str) -> Vec<(BookHandler, Option<String>)> {
    let router = build_book_routers();
    match router.dispatch(method, path) {
        Some(found) => vec![(*found.handler, found.params.first().map(|p| p.value.clone()))],
        None => vec![],
    }
}

#[test]
fn axum_calls_the_handler_the_table_names() {
    let methods = [
        Method::Get,
        Method::Post,
        Method::Put,
        Method::Delete,
        Method::Patch,
        Method::Options,
    ];
    for path in [
        "/books",
        "/books/42",
        "/books/abc-def",
        "/books/{book_id}",
        "/books/42/pages",
        "/books/",
        "/books/42/",
        "/books//42",
        "//books",
        "/bookshelf",
        "/Books",
        "/",
        "/authors/1",
    ] {
        for method in methods {
            let (_, made) = send(method, path);
            assert_eq!(made, expected(method, path), "{method:?} {path}");
        }
    }
}

#[test]
fn axum_calls_each_defined_handler_once() {
    assert_eq!(send(Method::Post, "/books").1, vec![(BookHandler::RegisterBook, None)]);
    assert_eq!(send(Method::Get, "/books").1, vec![(BookHandler::ShowBookList, None)]);
    assert_eq!(
        send(Method::Get, "/books/42").1,
        vec![(BookHandler::ShowBook, Some("42".to_string()))]
    );
    assert_eq!(
        send(Method::Post, "/books/42").1,
        vec![(BookHandler::UpdateBook, Some("42".to_string()))]
    );
    assert_eq!(
        send(Method::Delete, "/books/42").1,
        vec![(BookHandler::DeleteBook, Some("42".to_string()))]
    );
}

#[test]
fn axum_refuses_what_the_table_does_not_list() {
    let (status, made) = send(Method::Put, "/books/42");
    assert_eq!(status, StatusCode::METHOD_NOT_ALLOWED);
    assert!(made.is_empty());
    let (status, made) = send(Method::Put, "/books");
    assert_eq!(status, StatusCode::METHOD_NOT_ALLOWED);
    assert!(made.is_empty());
    let (status, made) = send(Method::Get, "/bookshelf");
    assert_eq!(status, StatusCode::NOT_FOUND);
    assert!(made.is_empty());
}

#[test]
fn axum_decodes_what_the_table_binds_as_it_stands() {
    let (_, made) = send(Method::Get, "/books/a%20b");
    assert_eq!(made, vec![(BookHandler::ShowBook, Some("a b".to_string()))]);
    assert_eq!(
        expected(Method::Get, "/books/a%20b"),
        vec![(BookHandler::ShowBook, Some("a%20b".to_string()))]
    );
}

#[test]
fn axum_answers_head_where_the_table_lists_get() {
    let (_, made) = send(Method::Head, "/books");
    assert_eq!(made, vec![(BookHandler::ShowBookList, None)]);
    assert_eq!(expected(Method::Head, "/books"), vec![]);
}
