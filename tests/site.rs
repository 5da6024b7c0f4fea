use content_core::config::{get_basedir, slug_from_path, LocalStorageConfig};
use content_core::lang::{get_lang, split_char};
use content_core::minify_js;
use content_core::post::{LoadingLimits, PostFilter, PostMetadata};
use content_core::protection::{
    PastConnections, ProtectionMiddleware, ProtectionMiddlewareBuilder, BAN_MS, BAN_STEP_MS,
};
use content_core::routes::{parse_u64, ContentQueryMethod, RequestArgs, RouteError};
use content_core::query::StorageQueryMethod;
use content_core::site::{SiteContext, WebringContext};

fn s(x: &str) -> String {
    x.to_string()
}

fn post(title: &str, serie: Option<&str>, category: Option<&str>) -> PostMetadata {
    PostMetadata {
        id: 0,
        title: s(title),
        description: None,
        category: category.map(s),
        serie: serie.map(s),
        serie_title: None,
        date: 0,
        modified: None,
        tags: vec![s("rust")],
        hidden: false,
    }
}

#[test]
fn post_id_is_deterministic() {
    let mut a = post("Hello", Some("intro"), Some("misc"));
    let mut b = post("Hello", Some("intro"), Some("misc"));
    a.compute_id();
    b.compute_id();
    assert_eq!(a.id, b.id);
    assert_ne!(a.id, 0);
    for mut other in [
        post("Hello!", Some("intro"), Some("misc")),
        post("Hello", None, Some("misc")),
        post("Hello", Some("intro"), Some("news")),
    ] {
        other.compute_id();
        assert_ne!(a.id, other.id);
    }
    let mut fixed = post("Hello", None, None);
    fixed.id = 12;
    fixed.compute_id();
    assert_eq!(fixed.id, 12);
}

#[test]
fn post_filters() {
    let p = post("T", Some("intro"), None);
    assert!(p.filter(&PostFilter::NoFilter));
    assert!(!p.filter(&PostFilter::NoSerie));
    assert!(p.filter(&PostFilter::Serie(s("intro"))));
    assert!(!p.filter(&PostFilter::Category(s("misc"))));
    assert!(p.filter(&PostFilter::ContainsTag(s("rust"))));
    assert!(p.filter(&PostFilter::DifferentThan(5)));
    assert!(p.filter(&PostFilter::Combine(vec![PostFilter::ContainsTag(s("rust")), PostFilter::Serie(s("intro"))])));
    assert!(!p.filter(&PostFilter::Combine(vec![PostFilter::ContainsTag(s("rust")), PostFilter::NoSerie])));
    assert!(p.filter(&PostFilter::Combine(vec![])));
}

#[test]
fn loading_limits_default() {
    let l = LoadingLimits::default();
    assert_eq!((l.recent_posts, l.categories, l.series, l.plain_posts_list), (4, 5, 5, 15));
}

#[test]
fn rate_limit_and_ban() {
    let b = ProtectionMiddlewareBuilder::new(3);
    let mut c = PastConnections::starting_at(1000);
    assert!(c.new_connection(1100, b.limit_per_sec));
    assert!(c.new_connection(1200, b.limit_per_sec));
    assert!(!c.new_connection(1300, b.limit_per_sec));
    assert!(c.new_connection(2500, b.limit_per_sec));
    assert_eq!(c.count, 0);
    c.ban_now(3000);
    assert!(c.banned(3000 + BAN_MS));
    assert_eq!(c.ban_duration, BAN_MS + BAN_STEP_MS);
    assert!(!c.banned(3000 + BAN_MS + BAN_MS + BAN_STEP_MS + 1));
    let mut fresh = PastConnections::starting_at(0);
    assert!(!fresh.banned(5));
}

fn site() -> SiteContext {
    SiteContext {
        name: s("Blog"),
        base_url: s("https://b.example"),
        og_image: None,
        author_name: s("Ann"),
        author_email: s("ann@b.example"),
        description: s("Notes"),
        welcome_message: s("Hi"),
        copyrights: s("CC"),
        social: vec![(s("github"), s("ann")), (s("email"), s("x"))],
        webring: WebringContext { name: s("ring"), next: s("n"), previous: s("p") },
        humans_txt: String::new(),
        blog_engine_src: Some(s("https://src")),
        blog_src: None,
    }
}

#[test]
fn humans_txt_text() {
    let mut c = site();
    c.generate_humans_txt();
    assert_eq!(
        c.humans_txt,
        "/* TEAM */\nAuthor: Ann\nGithub: ann\nEmail: ann [at] b.example\n\nSoftware sources: https://src\n\nLanguage: English\n"
    );
}

#[test]
fn rss_channel_header() {
    let c = site();
    let mut xml = s("<channel>");
    c.to_rss_feed(&mut xml);
    assert_eq!(
        xml,
        "<channel><title>Blog</title><link>https://b.example</link><description>Notes</description><managingEditor>ann@b.example (Ann)</managingEditor><webMaster>ann@b.example (Ann)</webMaster><copyright>CC</copyright>"
    );
}

#[test]
fn og_image_is_set() {
    let c = site().with_og_image(s("/img.png"));
    assert_eq!(c.og_image, Some(s("/img.png")));
    assert_eq!(c.name, "Blog");
}

#[test]
fn decimal_ids() {
    assert_eq!(parse_u64(&s("42")), Some(42));
    assert_eq!(parse_u64(&s("+7")), Some(7));
    assert_eq!(parse_u64(&s("18446744073709551615")), Some(u64::MAX));
    assert_eq!(parse_u64(&s("18446744073709551616")), None);
    assert_eq!(parse_u64(&s("")), None);
    assert_eq!(parse_u64(&s("+")), None);
    assert_eq!(parse_u64(&s("4a")), None);
    let args = RequestArgs { match_infos: vec![(s("id"), s("12")), (s("bad"), s("x"))] };
    assert!(matches!(args.get_query_id(&s("id")), Ok(12)));
    assert!(matches!(args.get_query_id(&s("bad")), Err(RouteError::ContentIdParsing)));
    assert!(matches!(args.get_query_id(&s("none")), Err(RouteError::ParameterNotInUrl)));
    assert!(matches!(args.get_query_slug(&s("bad")), Ok(v) if v == "x"));
}

#[test]
fn route_queries() {
    let args = RequestArgs { match_infos: vec![(s("slug"), s("hello")), (s("id"), s("3"))] };
    let q = ContentQueryMethod::ContentSlug(s("slug")).build_query(&s("posts"), &args).ok().unwrap();
    assert!(matches!(&q.method, StorageQueryMethod::ContentSlug(x) if x == "hello"));
    let q = ContentQueryMethod::ContentId(s("id")).build_query(&s("posts"), &args).ok().unwrap();
    assert!(matches!(q.method, StorageQueryMethod::ContentNumId(3)));
    assert_eq!(q.storage_slug, "posts");
    assert!(ContentQueryMethod::ContentSlug(s("nope")).build_query(&s("posts"), &args).is_err());
}

#[test]
fn path_helpers() {
    assert_eq!(slug_from_path(s("/api/v1/form")), "_api_v1_form");
    assert_eq!(get_basedir(&s("repo-main/posts/a.md"), "repo-main/pages/b.md"), "repo-main/p");
    let c = LocalStorageConfig::init(&s("/srv"), &s("posts"), &s("/etc/registry.toml"));
    assert_eq!(c.posts_dir, "/srv/posts");
    assert_eq!(c.post_registry, "/etc/registry.toml");
    assert_eq!(minify_js(vec![1, 2, 3]), vec![1, 2, 3]);
}

#[test]
fn per_address_decisions() {
    let mut m = ProtectionMiddleware::from_builder(&ProtectionMiddlewareBuilder::new(2));
    assert!(m.check_connection(1, 0));
    assert!(!m.check_connection(1, 10));
    // banned now: refused, and the ban grows
    assert!(!m.check_connection(1, 20));
    assert_eq!(m.addresses[0].1.ban_duration, BAN_MS + BAN_STEP_MS);
    // another address is unaffected
    assert!(m.check_connection(2, 30));
    assert_eq!(m.addresses.len(), 2);
}

#[test]
fn language_preferences_of_a_request() {
    assert_eq!(split_char("a,,b", ','), vec![s("a"), s(""), s("b")]);
    assert_eq!(split_char("", ','), vec![s("")]);
    assert_eq!(
        get_lang(Some("lang=fr&x=1&lang=de"), Some("en-US,en;q=0.9,FR")),
        Some(vec![s("fr"), s("de"), s("en"), s("fr")])
    );
    assert_eq!(get_lang(Some("x=1"), None), None);
    assert_eq!(get_lang(None, None), None);
}
