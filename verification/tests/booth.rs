use photobooth::codec::decode;
use photobooth::codec::encode;
use photobooth::errors::BoothError;
use photobooth::gallery::list_images;
use photobooth::geo::geo_url;
use photobooth::geo::make_local_label;
use photobooth::geo::needs_lookup;
use photobooth::geo::resolve;
use photobooth::geo::resolve_from_body;
use photobooth::upload::extension_of;
use photobooth::upload::Booth;

#[test]
fn encode_composes_the_stored_name() {
    assert_eq!(encode("Berlin", 1700000000, "jpg"), "Berlin@1700000000.jpg");
    assert_eq!(encode("a", 0, "b"), "a@0.b");
    assert_eq!(encode("New_York_(US)", 947638923, "png"), "New_York_(US)@947638923.png");
}

#[test]
fn decode_round_trips_label_and_sort_key() {
    let name = encode("New_York_(US)", 1700000000, "jpg");
    let img = decode(&name).unwrap();
    assert_eq!(img.sort_key, 1700000000);
    assert_eq!(img.name, "New York (US)");
    assert_eq!(img.path, "New_York_(US)@1700000000.jpg");
}

#[test]
fn decode_takes_the_last_path_segment() {
    let img = decode("./static/Berlin_(DE)@1431648000.png").unwrap();
    assert_eq!(img.sort_key, 1431648000);
    assert_eq!(img.name, "Berlin (DE)");
    assert_eq!(img.path, "./static/Berlin_(DE)@1431648000.png");
}

#[test]
fn decode_renders_time_without_seconds_and_zone() {
    let img = decode("x@1700000000.jpg").unwrap();
    // RFC 2822 for 1700000000 is "Tue, 14 Nov 2023 22:13:20 +0000".
    assert_eq!(img.time, "Tue, 14 Nov 2023 22:13");
    let epoch = decode("x@0.jpg").unwrap();
    assert_eq!(epoch.time, "Thu, 1 Jan 1970 00:00");
}

#[test]
fn decode_rejects_malformed_names() {
    assert_eq!(decode("not-a-valid-name.png"), Err(BoothError::MalformedName));
    assert_eq!(decode("no-at-or-dot"), Err(BoothError::MalformedName));
    assert_eq!(decode("label@123noext"), Err(BoothError::MalformedName));
    assert_eq!(decode("label@12a34.png"), Err(BoothError::MalformedName));
    assert_eq!(decode("label@.png"), Err(BoothError::MalformedName));
    assert_eq!(decode("label@-5.png"), Err(BoothError::MalformedName));
    // Out of the renderable range (beyond year 9999).
    assert_eq!(decode("label@253402300800.png"), Err(BoothError::MalformedName));
    // The largest renderable timestamp still decodes.
    let last = decode("label@253402300799.png").unwrap();
    assert_eq!(last.sort_key, 253402300799);
}

#[test]
fn resolve_loopback_never_needs_a_lookup() {
    assert!(!needs_lookup("127.0.0.1"));
    assert!(needs_lookup("203.0.113.9"));
    assert_eq!(resolve("127.0.0.1", None), Ok("localhost_(LOCAL)".to_string()));
    // Whatever body is at hand, loopback keeps the fixed label.
    assert_eq!(
        resolve("127.0.0.1", Some("{\"city\":\"Oslo\",\"countryCode\":\"NO\"}")),
        Ok("localhost_(LOCAL)".to_string())
    );
    assert_eq!(make_local_label(), "localhost_(LOCAL)");
}

#[test]
fn resolve_composes_label_from_lookup_body() {
    let body = "{\"city\":\"New York\",\"countryCode\":\"US\",\"status\":\"success\"}";
    assert_eq!(resolve_from_body(body), Ok("New_York_(US)".to_string()));
    assert_eq!(resolve("203.0.113.9", Some(body)), Ok("New_York_(US)".to_string()));
}

#[test]
fn resolve_fails_without_usable_body() {
    assert_eq!(resolve("203.0.113.9", None), Err(BoothError::GeolocationUnavailable));
    assert_eq!(resolve_from_body("not json"), Err(BoothError::GeolocationUnavailable));
    assert_eq!(
        resolve_from_body("{\"city\":\"Oslo\"}"),
        Err(BoothError::GeolocationUnavailable)
    );
    assert_eq!(
        resolve_from_body("{\"city\":7,\"countryCode\":\"NO\"}"),
        Err(BoothError::GeolocationUnavailable)
    );
}

#[test]
fn lookup_url_targets_the_address() {
    assert_eq!(geo_url("203.0.113.9"), "http://ip-api.com/json/203.0.113.9");
}

#[test]
fn extension_is_the_final_dot_segment() {
    assert_eq!(extension_of("photo.jpg"), Ok("jpg".to_string()));
    assert_eq!(extension_of("archive.tar.gz"), Ok("gz".to_string()));
    assert_eq!(extension_of("noext"), Err(BoothError::MissingExtension));
    assert_eq!(extension_of("trailing."), Err(BoothError::MissingExtension));
    assert_eq!(extension_of(""), Err(BoothError::MissingExtension));
}

#[test]
fn undersized_upload_stores_nothing() {
    let mut booth = Booth::new();
    let small = vec![7u8; 999];
    let r = booth.handle_upload("127.0.0.1", None, "photo.jpg", small, 1700000000);
    assert_eq!(r, Ok(false));
    assert_eq!(booth.files.len(), 0);
}

#[test]
fn upload_without_extension_is_rejected() {
    let mut booth = Booth::new();
    let payload = vec![7u8; 2000];
    let r = booth.handle_upload("127.0.0.1", None, "photo", payload, 1700000000);
    assert_eq!(r, Err(BoothError::MissingExtension));
    assert_eq!(booth.files.len(), 0);
}

#[test]
fn upload_needing_lookup_fails_without_body() {
    let mut booth = Booth::new();
    let payload = vec![7u8; 2000];
    let r = booth.handle_upload("203.0.113.9", None, "photo.jpg", payload, 1700000000);
    assert_eq!(r, Err(BoothError::GeolocationUnavailable));
    assert_eq!(booth.files.len(), 0);
}

#[test]
fn loopback_upload_end_to_end() {
    let mut booth = Booth::new();
    let payload = vec![7u8; 2000];
    let r = booth.handle_upload("127.0.0.1", None, "photo.jpg", payload, 1700000000);
    assert_eq!(r, Ok(true));
    assert_eq!(booth.files.len(), 1);
    assert_eq!(booth.files[0].name, "localhost_(LOCAL)@1700000000.jpg");
    assert_eq!(booth.files[0].bytes.len(), 2000);
    let listing = booth.list().unwrap();
    assert_eq!(listing.len(), 1);
    assert_eq!(listing[0].name, "localhost (LOCAL)");
    assert_eq!(listing[0].sort_key, 1700000000);
}

#[test]
fn listing_orders_most_recent_first() {
    let names = vec![
        "Oslo_(NO)@100.jpg".to_string(),
        "Berlin_(DE)@300.png".to_string(),
        "Lima_(PE)@200.gif".to_string(),
    ];
    let listing = list_images(&names).unwrap();
    let keys: Vec<i64> = listing.iter().map(|d| d.sort_key).collect();
    assert_eq!(keys, vec![300, 200, 100]);
    assert_eq!(listing[0].name, "Berlin (DE)");
    assert_eq!(listing[1].name, "Lima (PE)");
    assert_eq!(listing[2].name, "Oslo (NO)");
}

#[test]
fn one_malformed_name_fails_the_whole_listing() {
    let names = vec![
        "Oslo_(NO)@100.jpg".to_string(),
        "not-a-valid-name.png".to_string(),
        "Lima_(PE)@200.gif".to_string(),
    ];
    assert_eq!(list_images(&names), Err(BoothError::MalformedName));
}

#[test]
fn uploads_from_a_lookup_body_store_the_geo_label() {
    let mut booth = Booth::new();
    let payload = vec![1u8; 1000];
    let body = "{\"city\":\"Rio de Janeiro\",\"countryCode\":\"BR\"}";
    let r = booth.handle_upload("203.0.113.9", Some(body), "trip.png", payload, 947638923);
    assert_eq!(r, Ok(true));
    assert_eq!(booth.files[0].name, "Rio_de_Janeiro_(BR)@947638923.png");
    let listing = booth.list().unwrap();
    assert_eq!(listing[0].name, "Rio de Janeiro (BR)");
    assert_eq!(listing[0].sort_key, 947638923);
}
