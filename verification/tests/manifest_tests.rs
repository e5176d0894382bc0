use kepub::errors::ConverterError;
use kepub::manifest::locate_documents;
use kepub::node::{Element, Node};

fn cover_meta(content: Option<&str>) -> Element {
    let mut m = Element::new("meta");
    m.set_attr("name", "cover");
    if let Some(c) = content {
        m.set_attr("content", c);
    }
    m
}

fn item(id: &str, href: &str, media_type: &str) -> Element {
    let mut it = Element::new("item");
    it.set_attr("id", id);
    it.set_attr("href", href);
    it.set_attr("media-type", media_type);
    it
}

fn package(meta: Option<Element>, items: Vec<Element>) -> Element {
    let mut root = Element::new("package");
    let mut metadata = Element::new("metadata");
    if let Some(m) = meta {
        metadata.children.push(Node::Element(m));
    }
    let mut manifest = Element::new("manifest");
    for it in items {
        manifest.children.push(Node::Element(it));
    }
    root.children.push(Node::Element(metadata));
    root.children.push(Node::Element(manifest));
    root
}

fn find_item<'a>(root: &'a Element, id: &str) -> &'a Element {
    root.find_first_child_with_attrs("item", "id", id)
        .expect("item present")
}

#[test]
fn test_manifest_patch_flags_cover_item() {
    let mut root = package(
        Some(cover_meta(Some("X"))),
        vec![
            item("toc", "toc.xhtml", "application/xhtml+xml"),
            item("X", "cover.jpg", "image/jpeg"),
        ],
    );
    assert!(kepub::manifest::patch_cover(&mut root).is_ok());
    let cover = find_item(&root, "X");
    assert_eq!(cover.get_attr("properties").unwrap(), "cover-image");
    // The other item is untouched.
    let toc = find_item(&root, "toc");
    assert!(toc.get_attr("properties").is_none());
}

#[test]
fn test_manifest_patch_overwrites_existing_properties() {
    let mut cover = item("X", "cover.jpg", "image/jpeg");
    cover.set_attr("properties", "old");
    let mut root = package(Some(cover_meta(Some("X"))), vec![cover]);
    assert!(kepub::manifest::patch_cover(&mut root).is_ok());
    let patched = find_item(&root, "X");
    assert_eq!(patched.get_attr("properties").unwrap(), "cover-image");
    assert_eq!(patched.attributes.len(), 4);
}

#[test]
fn test_manifest_without_cover_meta_fails() {
    let mut root = package(None, vec![item("X", "cover.jpg", "image/jpeg")]);
    let err = kepub::manifest::patch_cover(&mut root).unwrap_err();
    assert_eq!(err, ConverterError::ManifestMalformed);
}

#[test]
fn test_manifest_meta_without_content_fails() {
    let mut root = package(Some(cover_meta(None)), vec![item("X", "c.jpg", "image/jpeg")]);
    let err = kepub::manifest::patch_cover(&mut root).unwrap_err();
    assert_eq!(err, ConverterError::ManifestMalformed);
}

#[test]
fn test_manifest_without_matching_item_fails() {
    let mut root = package(
        Some(cover_meta(Some("X"))),
        vec![item("Y", "c.jpg", "image/jpeg")],
    );
    let err = kepub::manifest::patch_cover(&mut root).unwrap_err();
    assert_eq!(err, ConverterError::ManifestMalformed);
}

#[test]
fn test_locate_documents_collects_xhtml_hrefs_in_order() {
    let root = package(
        Some(cover_meta(Some("X"))),
        vec![
            item("a", "a.xhtml", "application/xhtml+xml"),
            item("X", "cover.jpg", "image/jpeg"),
            item("b", "b.xhtml", "application/xhtml+xml"),
            item("css", "style.css", "text/css"),
        ],
    );
    let hrefs = locate_documents(&root);
    assert_eq!(hrefs, vec!["a.xhtml".to_string(), "b.xhtml".to_string()]);
}

#[test]
fn test_find_first_child_depth_first_order() {
    let root = package(
        Some(cover_meta(Some("X"))),
        vec![item("first", "a.xhtml", "application/xhtml+xml")],
    );
    let found = root.find_first_child("item").expect("an item");
    assert_eq!(found.get_attr("id").unwrap(), "first");
    assert!(root.find_first_child("missing").is_none());
}

#[test]
fn test_manifest_patch_takes_first_match_in_document_order() {
    // Two items share the id; only the first in depth-first order is
    // annotated.
    let mut root = package(
        Some(cover_meta(Some("X"))),
        vec![item("X", "one.jpg", "image/jpeg"), item("X", "two.jpg", "image/jpeg")],
    );
    assert!(kepub::manifest::patch_cover(&mut root).is_ok());
    let manifest = root.find_first_child("manifest").unwrap();
    let first = match &manifest.children[0] {
        Node::Element(e) => e,
        _ => panic!("expected an item"),
    };
    let second = match &manifest.children[1] {
        Node::Element(e) => e,
        _ => panic!("expected an item"),
    };
    assert_eq!(first.get_attr("properties").unwrap(), "cover-image");
    assert!(second.get_attr("properties").is_none());
}

#[test]
fn test_locate_skips_item_without_href() {
    let mut bare = Element::new("item");
    bare.set_attr("id", "nohref");
    bare.set_attr("media-type", "application/xhtml+xml");
    let mut root = package(None, vec![item("a", "a.xhtml", "application/xhtml+xml")]);
    match &mut root.children[1] {
        Node::Element(manifest) => manifest.children.push(Node::Element(bare)),
        _ => panic!("expected the manifest"),
    }
    let hrefs = locate_documents(&root);
    assert_eq!(hrefs, vec!["a.xhtml".to_string()]);
}
