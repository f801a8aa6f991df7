use std::cell::Cell;
use std::sync::Arc;

use tiled::text::{parse_i32, parse_u32, text_is};
use tiled::{Colour, FilesystemResourceCache, Orientation, ResourceCache, Tileset};

fn tileset(name: &str) -> Tileset {
    Tileset {
        first_gid: 1,
        name: name.to_string(),
        tile_width: 16,
        tile_height: 16,
        spacing: 0,
        margin: 0,
        images: Vec::new(),
    }
}

#[test]
fn colour_with_and_without_hash() {
    let a = Colour::from_str("#ff0000").unwrap();
    let b = Colour::from_str("ff0000").unwrap();
    assert_eq!(a, Colour { red: 255, green: 0, blue: 0 });
    assert_eq!(b, Colour { red: 255, green: 0, blue: 0 });
    assert_eq!(Colour::from_str("#0A1b2C"), Some(Colour { red: 10, green: 27, blue: 44 }));
}

#[test]
fn colour_rejects_other_lengths_and_names() {
    assert_eq!(Colour::from_str("ff00"), None);
    assert_eq!(Colour::from_str("red"), None);
    assert_eq!(Colour::from_str("#ff00000"), None);
    assert_eq!(Colour::from_str("+f0000"), None);
    assert_eq!(Colour::from_str("gg0000"), None);
    assert_eq!(Colour::from_str(""), None);
}

#[test]
fn orientation_names() {
    assert_eq!(Orientation::from_str("orthogonal"), Some(Orientation::Orthogonal));
    assert_eq!(Orientation::from_str("isometric"), Some(Orientation::Isometric));
    assert_eq!(Orientation::from_str("Staggered"), Some(Orientation::Staggered));
    assert_eq!(Orientation::from_str("hexagonal"), None);
}

#[test]
fn decimal_integers() {
    assert_eq!(parse_u32("42"), Some(42));
    assert_eq!(parse_u32("+7"), Some(7));
    assert_eq!(parse_u32("4294967295"), Some(u32::MAX));
    assert_eq!(parse_u32("4294967296"), None);
    assert_eq!(parse_u32("-1"), None);
    assert_eq!(parse_u32(""), None);
    assert_eq!(parse_u32("+"), None);
    assert_eq!(parse_u32("1a"), None);
    assert_eq!(parse_i32("-2147483648"), Some(i32::MIN));
    assert_eq!(parse_i32("2147483647"), Some(i32::MAX));
    assert_eq!(parse_i32("2147483648"), None);
    assert_eq!(parse_i32("-2147483649"), None);
    assert_eq!(parse_i32("-"), None);
    assert_eq!(parse_i32("-12"), Some(-12));
}

#[test]
fn text_comparison() {
    assert!(text_is("map", "map"));
    assert!(!text_is("map", "maps"));
    assert!(!text_is("map", "mop"));
}

#[test]
fn cache_calls_factory_once_per_path() {
    let mut cache = FilesystemResourceCache::new();
    let calls = Cell::new(0);
    assert!(cache.get_tileset("a.tsx").is_none());
    let first = cache
        .get_or_try_insert_tileset_with("a.tsx".to_string(), || -> Result<Tileset, ()> {
            calls.set(calls.get() + 1);
            Ok(tileset("one"))
        })
        .unwrap();
    let second = cache
        .get_or_try_insert_tileset_with("a.tsx".to_string(), || -> Result<Tileset, ()> {
            calls.set(calls.get() + 1);
            Ok(tileset("two"))
        })
        .unwrap();
    assert_eq!(calls.get(), 1);
    assert_eq!(second.name, "one");
    assert!(Arc::ptr_eq(&first, &second));
    assert_eq!(cache.get_tileset("a.tsx").unwrap().name, "one");
}

#[test]
fn cache_factory_error_leaves_cache_unchanged() {
    let mut cache = FilesystemResourceCache::new();
    let r = cache.get_or_try_insert_tileset_with("b.tsx".to_string(), || -> Result<Tileset, &str> { Err("no file") });
    assert_eq!(r.unwrap_err(), "no file");
    assert!(cache.get_tileset("b.tsx").is_none());
    let ok = cache.get_or_try_insert_tileset_with("b.tsx".to_string(), || -> Result<Tileset, &str> { Ok(tileset("b")) });
    assert_eq!(ok.unwrap().name, "b");
    assert!(cache.get_tileset("c.tsx").is_none());
}
