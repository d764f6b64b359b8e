use std::sync::Arc;
use tide::http::Method;
use tide_fluent_routes::prelude::{root, RouteBuilder, Router};
use tide_fluent_routes::RouteTable;

type Routes = RouteBuilder<u32, &'static str>;

type Row = (String, Vec<&'static str>, Method, u32);

fn rows(table: &RouteTable<u32, &'static str>) -> Vec<Row> {
    table
        .entries()
        .iter()
        .map(|d| (d.path.clone(), d.middleware.iter().map(|m| **m).collect(), d.method, d.endpoint))
        .collect()
}

fn row(path: &str, middleware: &[&'static str], method: Method, endpoint: u32) -> Row {
    (path.to_string(), middleware.to_vec(), method, endpoint)
}

/// A router that only notes what it is handed, call by call.
struct Calls {
    seen: Vec<Row>,
}

impl Router<u32, &'static str> for Calls {
    fn register_endpoint(
        &mut self,
        path: &str,
        method: Method,
        middleware: Vec<Arc<&'static str>>,
        endpoint: u32,
    ) {
        self.seen.push((
            path.to_string(),
            middleware.iter().map(|m| **m).collect(),
            method,
            endpoint,
        ));
    }
}

fn sample() -> Routes {
    root()
        .method(Method::Get, 0)
        .at("api/v1", |r| r.method(Method::Get, 1).method(Method::Post, 2))
        .with("auth", |r| r.at("admin", |r| r.method(Method::Delete, 3)))
        .at("api/v2", |r| r.method(Method::Get, 4))
}

fn sample_rows() -> Vec<Row> {
    vec![
        row("", &[], Method::Get, 0),
        row("api/v1", &[], Method::Get, 1),
        row("api/v1", &[], Method::Post, 2),
        row("admin", &["auth"], Method::Delete, 3),
        row("api/v2", &[], Method::Get, 4),
    ]
}

#[test]
fn a_new_table_is_empty() {
    let table: RouteTable<u32, &'static str> = RouteTable::new();
    assert!(table.entries().is_empty());
    assert!(table.into_entries().is_empty());
}

#[test]
fn registering_an_empty_tree_registers_nothing() {
    let mut table: RouteTable<u32, &'static str> = RouteTable::new();
    table.register(root());
    assert!(table.entries().is_empty());
}

#[test]
fn a_table_keeps_a_single_endpoint() {
    let mut table: RouteTable<u32, &'static str> = RouteTable::new();
    table.register_endpoint("a/b", Method::Patch, vec![Arc::new("m1"), Arc::new("m2")], 7);
    assert_eq!(rows(&table), vec![row("a/b", &["m1", "m2"], Method::Patch, 7)]);
}

#[test]
fn register_hands_over_every_descriptor_in_order() {
    let mut table: RouteTable<u32, &'static str> = RouteTable::new();
    table.register(sample());
    assert_eq!(rows(&table), sample_rows());
}

#[test]
fn register_matches_build() {
    let built: Vec<Row> = sample()
        .build()
        .into_iter()
        .map(|d| (d.path, d.middleware.iter().map(|m| **m).collect(), d.method, d.endpoint))
        .collect();
    let mut table: RouteTable<u32, &'static str> = RouteTable::new();
    table.register(sample());
    assert_eq!(rows(&table), built);
}

#[test]
fn a_second_tree_is_registered_behind_the_first() {
    let mut table: RouteTable<u32, &'static str> = RouteTable::new();
    table.register_endpoint("first", Method::Get, Vec::new(), 100);
    table.register(sample());
    table.register(root().at("more", |r| r.method(Method::Put, 5)));
    let mut expected = vec![row("first", &[], Method::Get, 100)];
    expected.extend(sample_rows());
    expected.push(row("more", &[], Method::Put, 5));
    assert_eq!(rows(&table), expected);
}

#[test]
fn into_entries_gives_up_what_was_registered() {
    let mut table: RouteTable<u32, &'static str> = RouteTable::new();
    table.register(sample());
    let entries = table.into_entries();
    assert_eq!(entries.len(), 5);
    assert_eq!(entries[3].path, "admin");
    assert_eq!(entries[3].endpoint, 3);
    assert_eq!(*entries[3].middleware[0], "auth");
}

#[test]
fn register_calls_a_router_of_the_caller_once_for_each_endpoint() {
    let mut calls = Calls { seen: Vec::new() };
    calls.register(sample());
    assert_eq!(calls.seen, sample_rows());
}

#[test]
fn the_prelude_names_the_methods_of_tide() {
    let method: tide_fluent_routes::prelude::Method = Method::Options;
    let mut table: RouteTable<u32, &'static str> = RouteTable::new();
    table.register(root().method(method, 9));
    assert_eq!(rows(&table), vec![row("", &[], tide::http::Method::Options, 9)]);
}
