use imposer::imposition::perfect_bound::calculate_perfect_bound_order_with_signature_count;
use imposer::imposition::saddle_stitch::calculate_saddle_stitch_order;
use imposer::{plan_booklet_for_pdf, BindingType, BookletError};
use lopdf::{Dictionary, Document, Object};

/// A PDF document of `n` empty A4 pages.
fn pdf_with_pages(n: usize) -> Vec<u8> {
    let mut doc = Document::with_version("1.5");
    let pages_id = doc.new_object_id();
    let mut kids = Vec::new();
    for _ in 0..n {
        let mut page = Dictionary::new();
        page.set("Type", Object::Name(b"Page".to_vec()));
        page.set("Parent", Object::Reference(pages_id));
        page.set(
            "MediaBox",
            Object::Array(vec![0.into(), 0.into(), 595.into(), 842.into()]),
        );
        let page_id = doc.add_object(Object::Dictionary(page));
        kids.push(Object::Reference(page_id));
    }
    let mut pages = Dictionary::new();
    pages.set("Type", Object::Name(b"Pages".to_vec()));
    pages.set("Count", Object::Integer(n as i64));
    pages.set("Kids", Object::Array(kids));
    doc.objects.insert(pages_id, Object::Dictionary(pages));
    let mut catalog = Dictionary::new();
    catalog.set("Type", Object::Name(b"Catalog".to_vec()));
    catalog.set("Pages", Object::Reference(pages_id));
    let catalog_id = doc.add_object(Object::Dictionary(catalog));
    doc.trailer.set("Root", Object::Reference(catalog_id));
    let mut out = Vec::new();
    doc.save_to(&mut out).unwrap();
    out
}

#[test]
fn pdf_plan_refuses_bytes_that_are_no_pdf() {
    let res = plan_booklet_for_pdf(b"not a pdf at all", 2, BindingType::SaddleStitch, 1, None);
    assert!(matches!(res, Err(BookletError::ParseError(_))));
}

#[test]
fn pdf_plan_refuses_a_document_without_pages() {
    let res = plan_booklet_for_pdf(&pdf_with_pages(0), 2, BindingType::SaddleStitch, 1, None);
    match res {
        Err(BookletError::InvalidConfig(msg)) => assert_eq!(msg, "PDF has no pages"),
        Err(other) => panic!("unexpected {other:?}"),
        Ok(_) => panic!("a document without pages was planned"),
    }
}

#[test]
fn pdf_plan_counts_the_pages_of_the_document() {
    let plan = plan_booklet_for_pdf(&pdf_with_pages(8), 2, BindingType::SaddleStitch, 1, None).unwrap();
    assert_eq!(plan.num_pages, 8);
    assert_eq!(plan.document.get_pages().len(), 8);
    assert_eq!(plan.sides, calculate_saddle_stitch_order(8, 2));
    assert_eq!(plan.sides, vec![vec![8, 1], vec![2, 7], vec![6, 3], vec![4, 5]]);
    let plan = plan_booklet_for_pdf(&pdf_with_pages(5), 4, BindingType::SaddleStitch, 3, Some(2)).unwrap();
    assert_eq!(plan.num_pages, 5);
    assert_eq!(plan.sides, calculate_saddle_stitch_order(5, 4));
    let plan = plan_booklet_for_pdf(&pdf_with_pages(13), 4, BindingType::PerfectBound, 1, Some(3)).unwrap();
    assert_eq!(plan.num_pages, 13);
    assert_eq!(plan.sides, calculate_perfect_bound_order_with_signature_count(13, 4, 3));
    let plan = plan_booklet_for_pdf(&pdf_with_pages(6), 3, BindingType::SaddleStitch, 1, None).unwrap();
    assert_eq!(plan.sides, vec![vec![0, 1, 0], vec![2, 0, 0], vec![6, 3, 0], vec![4, 5, 0]]);
}
