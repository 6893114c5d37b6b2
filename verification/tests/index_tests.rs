use tantivy::collector::TopDocs;
use tantivy::query::{FuzzyTermQuery, QueryParser};
use tantivy::schema::{Schema, STORED, TEXT};
use tantivy::{Index, IndexWriter, TantivyDocument, Term};

use workflow::search::{fuzzy_fallback, SearchPhase};

fn one_doc_index() -> (Index, tantivy::schema::Field) {
    let mut builder = Schema::builder();
    let id = builder.add_text_field("id", TEXT | STORED);
    let schema = builder.build();
    let index = Index::create_in_ram(schema);
    let mut writer: IndexWriter = index.writer(15_000_000).unwrap();
    let mut doc = TantivyDocument::default();
    doc.add_text(id, "test");
    writer.add_document(doc).unwrap();
    writer.commit().unwrap();
    (index, id)
}

#[test]
fn test_search_fallback_ordering() {
    let (index, id) = one_doc_index();
    let reader = index.reader().unwrap();
    let searcher = reader.searcher();

    // A verbatim term is answered by the exact phase; the fuzzy phase must
    // not even run.
    let parser = QueryParser::for_index(&index, vec![id]);
    let exact_query = parser.parse_query("test").unwrap();
    let exact_hits = searcher
        .search(&exact_query, &TopDocs::with_limit(10).order_by_score())
        .unwrap();
    match fuzzy_fallback(exact_hits) {
        SearchPhase::Done(hits) => assert_eq!(hits.len(), 1),
        SearchPhase::Fuzzy => panic!("the fuzzy phase must not run on a verbatim term"),
    }

    // A transposed term finds nothing exactly, and the indexed value comes
    // back only through the fuzzy phase.
    let exact_query = parser.parse_query("tets").unwrap();
    let exact_hits = searcher
        .search(&exact_query, &TopDocs::with_limit(10).order_by_score())
        .unwrap();
    match fuzzy_fallback(exact_hits) {
        SearchPhase::Done(_) => panic!("a transposed term must not hit the exact phase"),
        SearchPhase::Fuzzy => {
            let fuzzy_term = Term::from_field_text(id, "tets");
            let fuzzy_query = FuzzyTermQuery::new(fuzzy_term, 2, true);
            let fuzzy_hits = searcher
                .search(&fuzzy_query, &TopDocs::with_limit(10).order_by_score())
                .unwrap();
            assert_eq!(fuzzy_hits.len(), 1);
        }
    }
}
