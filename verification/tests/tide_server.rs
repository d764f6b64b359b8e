use std::future::Future;
use std::pin::Pin;
use std::sync::Arc;

use tide::http::{Method, Request as HttpRequest, Response as HttpResponse, Url};
use tide::{Endpoint, Next, Request, Server};
use tide_fluent_routes::{root, RouteBuilder, Router};

type Handler = Box<dyn Endpoint<()>>;

type Wrapped<'a> = Pin<Box<dyn Future<Output = tide::Result> + Send + 'a>>;

type Wrap = for<'a> fn(Request<()>, Next<'a, ()>) -> Wrapped<'a>;

type Routes = RouteBuilder<Handler, Wrap>;

/// A `tide` server that takes flattened routes.
struct Served(Server<()>);

impl Router<Handler, Wrap> for Served {
    fn register_endpoint(
        &mut self,
        path: &str,
        method: Method,
        middleware: Vec<Arc<Wrap>>,
        endpoint: Handler,
    ) {
        let mut route = self.0.at(path);
        for wrap in middleware {
            route.with(*wrap);
        }
        route.method(method, endpoint);
    }
}

async fn index(_req: Request<()>) -> tide::Result<String> {
    Ok(String::from("index"))
}

async fn list(_req: Request<()>) -> tide::Result<String> {
    Ok(String::from("list"))
}

async fn create(_req: Request<()>) -> tide::Result<String> {
    Ok(String::from("create"))
}

async fn newer(_req: Request<()>) -> tide::Result<String> {
    Ok(String::from("newer"))
}

async fn around(name: &str, req: Request<()>, next: Next<'_, ()>) -> tide::Result {
    let mut res = next.run(req).await;
    let body = res.take_body().into_string().await?;
    res.set_body(format!("{}({})", name, body));
    Ok(res)
}

fn outer<'a>(req: Request<()>, next: Next<'a, ()>) -> Wrapped<'a> {
    Box::pin(around("outer", req, next))
}

fn inner<'a>(req: Request<()>, next: Next<'a, ()>) -> Wrapped<'a> {
    Box::pin(around("inner", req, next))
}

fn ask(served: &Served, method: Method, path: &str) -> (u16, String) {
    async_std::task::block_on(async {
        let url = Url::parse(&format!("http://localhost/{}", path)).unwrap();
        let mut res: HttpResponse = served.0.respond(HttpRequest::new(method, url)).await.unwrap();
        let status: u16 = res.status().into();
        (status, res.body_string().await.unwrap())
    })
}

fn top() -> Routes {
    root()
}

fn boxed(endpoint: impl Endpoint<()>) -> Handler {
    Box::new(endpoint)
}

fn served(routes: Routes) -> Served {
    let mut served = Served(Server::new());
    served.register(routes);
    served
}

#[test]
fn a_server_answers_on_the_flattened_paths() {
    let server = served(
        top()
            .method(Method::Get, boxed(index))
            .at("api/v1", |r| {
                r.method(Method::Get, boxed(list)).method(Method::Post, boxed(create))
            })
            .at("api/v2", |r| r.method(Method::Get, boxed(newer))),
    );
    assert_eq!(ask(&server, Method::Get, ""), (200, String::from("index")));
    assert_eq!(ask(&server, Method::Get, "api/v1"), (200, String::from("list")));
    assert_eq!(ask(&server, Method::Post, "api/v1"), (200, String::from("create")));
    assert_eq!(ask(&server, Method::Get, "api/v2"), (200, String::from("newer")));
    assert_eq!(ask(&server, Method::Post, "api/v2").0, 405);
    assert_eq!(ask(&server, Method::Get, "api").0, 404);
}

#[test]
fn a_server_joins_nested_segments() {
    let server =
        served(top().at("api", |r| r.at("v1", |r| r.method(Method::Get, boxed(list)))));
    assert_eq!(ask(&server, Method::Get, "api/v1"), (200, String::from("list")));
    assert_eq!(ask(&server, Method::Get, "v1").0, 404);
}

#[test]
fn a_server_runs_middleware_from_the_outside_in() {
    let server = served(
        top()
            .with(outer as Wrap, |r| {
                r.with(inner as Wrap, |r| r.at("deep", |r| r.method(Method::Get, boxed(list))))
                    .at("shallow", |r| r.method(Method::Get, boxed(create)))
            })
            .at("plain", |r| r.method(Method::Get, boxed(index))),
    );
    assert_eq!(ask(&server, Method::Get, "deep"), (200, String::from("outer(inner(list))")));
    assert_eq!(ask(&server, Method::Get, "shallow"), (200, String::from("outer(create)")));
    assert_eq!(ask(&server, Method::Get, "plain"), (200, String::from("index")));
}

#[test]
fn a_server_serves_the_handler_registered_last() {
    let server = served(
        top().at("x", |r| {
            r.method(Method::Get, boxed(list)).method(Method::Get, boxed(newer))
        }),
    );
    assert_eq!(ask(&server, Method::Get, "x"), (200, String::from("newer")));
}
