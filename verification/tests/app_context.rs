use nova_forms::AppContext;

#[test]
fn test_base_context_resolve_path() {
    let base_context = AppContext::new(String::from("/"));
    assert_eq!(base_context.resolve_path("/pkg/app.css"), "/pkg/app.css");
    assert_eq!(base_context.resolve_path("pkg/app.css"), "/pkg/app.css");
    assert_eq!(base_context.resolve_path("app.css"), "/app.css");
    assert_eq!(base_context.resolve_path("/app.css"), "/app.css");

    let base_context = AppContext::new(String::from("/site"));
    assert_eq!(base_context.resolve_path("/pkg/app.css"), "/site/pkg/app.css");
    assert_eq!(base_context.resolve_path("pkg/app.css"), "/site/pkg/app.css");
    assert_eq!(base_context.resolve_path("app.css"), "/site/app.css");
    assert_eq!(base_context.resolve_path("/app.css"), "/site/app.css");
}
