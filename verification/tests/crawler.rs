use kerai::crawler::{
    author_novelty, clean_arxiv_id, contains_text, extract_doi_from_segment, extract_references,
    first_author_key, make_author_year_key, record_citation, scan_paragraph, trim_trailing_dots,
    ExtractedRef, NewRef, Novelty, RefDetails, RefType,
};

fn no_details() -> RefDetails {
    RefDetails { authors: None, year: None, title: None, doi: None, arxiv_id: None, url: None }
}

fn new_ref(key: &str, content: &str, ref_type: RefType) -> NewRef {
    NewRef { key: key.to_string(), content: content.to_string(), ref_type, details: no_details() }
}

fn find<'a>(refs: &'a [ExtractedRef], key: &str) -> &'a ExtractedRef {
    refs.iter().find(|r| r.key == key).expect("reference present")
}

#[test]
fn author_year_key_uses_first_surname() {
    assert_eq!(make_author_year_key("Friston, K. J.", "2010"), "friston-2010");
    assert_eq!(make_author_year_key("Da Costa et al.", "2020"), "da-2020");
    assert_eq!(make_author_year_key("Parr & Friston", "2019a"), "parr-2019a");
}

#[test]
fn author_year_key_strips_hyphens_and_lowercases() {
    assert_eq!(make_author_year_key("Müller-Lyer", "1889"), "mullerlyer-1889");
    assert_eq!(make_author_year_key("Müller", "2010"), "muller-2010");
    assert_eq!(make_author_year_key("Mu\u{0308}ller", "2010"), "muller-2010");
    assert_eq!(make_author_year_key("Parr-Smith & Friston", "2019"), "parrsmith-2019");
    assert_eq!(make_author_year_key("Łukasiewicz", "1920"), "lukasiewicz-1920");
    assert_eq!(first_author_key("Gödel, K."), "godel");
    assert_eq!(make_author_year_key("Fitz\u{00AD}Gerald", "2016"), "fitzgerald-2016");
}

#[test]
fn author_year_key_without_a_word_keeps_whole_authors() {
    assert_eq!(make_author_year_key(", Smith", "2001"), ", smith-2001");
    assert_eq!(make_author_year_key("", "1999"), "-1999");
}

#[test]
fn first_author_key_examples() {
    assert_eq!(first_author_key("  Parr, T."), "parr");
    assert_eq!(first_author_key("Friston-Smith K"), "fristonsmith");
    assert_eq!(first_author_key(""), "");
    assert_eq!(first_author_key(" , Smith"), "");
}

#[test]
fn contains_text_examples() {
    assert!(contains_text("friston, k. j.", "friston"));
    assert!(contains_text("abc", ""));
    assert!(!contains_text("abc", "abcd"));
    assert!(!contains_text("parr, t.", "friston"));
}

#[test]
fn novelty_known_new_unknown() {
    let known = vec!["friston, k. j.".to_string(), "parr, t. and pezzulo, g.".to_string()];
    assert_eq!(author_novelty("Friston, K.", &known), Novelty::Known);
    assert_eq!(author_novelty("Pezzulo G", &known), Novelty::Known);
    assert_eq!(author_novelty("Hinton, G.", &known), Novelty::New);
    assert_eq!(author_novelty("", &known), Novelty::Unknown);
    assert_eq!(author_novelty("Hinton", &[]), Novelty::New);
}

#[test]
fn trailing_dots_are_trimmed() {
    assert_eq!(trim_trailing_dots("10.1038/nrn2787..."), "10.1038/nrn2787");
    assert_eq!(trim_trailing_dots("..."), "");
    assert_eq!(trim_trailing_dots("a.b"), "a.b");
}

#[test]
fn arxiv_ids_are_cleaned() {
    assert_eq!(clean_arxiv_id("2107.12345v2 [cs.LG]"), "2107.12345v2");
    assert_eq!(clean_arxiv_id("1234.5678."), "1234.5678");
    assert_eq!(clean_arxiv_id("   "), "");
}

#[test]
fn doi_found_after_position() {
    let text = "Smith, J. (2020). \"Title.\" Journal. doi:10.1234/abcd.";
    assert_eq!(extract_doi_from_segment(text, 0), Some("10.1234/abcd".to_string()));
    assert_eq!(extract_doi_from_segment(text, text.len()), None);
    assert_eq!(extract_doi_from_segment("no identifier here", 0), None);
}

#[test]
fn doi_search_stays_within_window() {
    let mut text = String::from("Smith (2020). ");
    text.push_str(&"x".repeat(600));
    text.push_str(" doi:10.1234/far");
    assert_eq!(extract_doi_from_segment(&text, 0), None);
    let start = text.len() - 20;
    assert_eq!(extract_doi_from_segment(&text, start), Some("10.1234/far".to_string()));
}

#[test]
fn doi_search_off_char_boundary_finds_nothing() {
    let text = "é doi:10.1234/abcd";
    assert_eq!(extract_doi_from_segment(text, 1), None);
}

#[test]
fn citation_recorded_once_per_paragraph() {
    let mut refs: Vec<ExtractedRef> = Vec::new();
    record_citation(&mut refs, new_ref("friston-2010", "Friston (2010)", RefType::Citation), 7);
    record_citation(&mut refs, new_ref("friston-2010", "other", RefType::Doi), 7);
    assert_eq!(refs.len(), 1);
    assert_eq!(refs[0].citing, vec![7]);
    assert_eq!(refs[0].content, "Friston (2010)");
    assert_eq!(refs[0].ref_type, RefType::Citation);
    record_citation(&mut refs, new_ref("friston-2010", "other", RefType::Doi), 9);
    assert_eq!(refs[0].citing, vec![7, 9]);
    record_citation(&mut refs, new_ref("parr-2019", "Parr (2019)", RefType::Citation), 9);
    assert_eq!(refs.len(), 2);
    assert_eq!(refs[1].key, "parr-2019");
    assert_eq!(refs[1].citing, vec![9]);
}

#[test]
fn references_extracted_from_paragraphs() {
    let p1 = "As shown by (Friston 2010) and (Parr & Friston, 2019), see doi:10.1016/j.neuron.2010.01.001 \
              and arXiv:2107.12345v2 [cs.LG] and https://example.com/paper.";
    let p2 = "Again (Friston 2010). Friston, K. (2010). \"The free-energy principle.\" Nature Reviews. doi:10.1038/nrn2787";
    let refs = extract_references(&[(1, p1.to_string()), (2, p2.to_string())]);
    let keys: Vec<&str> = refs.iter().map(|r| r.key.as_str()).collect();
    assert_eq!(
        keys,
        vec![
            "friston-2010",
            "parr-2019",
            "10.1016/j.neuron.2010.01.001",
            "arxiv:2107.12345v2",
            "https://example.com/paper",
            "10.1038/nrn2787",
        ]
    );

    let f = find(&refs, "friston-2010");
    assert_eq!(f.ref_type, RefType::Citation);
    assert_eq!(f.content, "Friston (2010)");
    assert_eq!(f.citing, vec![1, 2]);
    assert_eq!(f.details.authors.as_deref(), Some("Friston"));
    assert_eq!(f.details.year.as_deref(), Some("2010"));

    let p = find(&refs, "parr-2019");
    assert_eq!(p.content, "Parr & Friston (2019)");
    assert_eq!(p.citing, vec![1]);

    let d = find(&refs, "10.1016/j.neuron.2010.01.001");
    assert_eq!(d.ref_type, RefType::Doi);
    assert_eq!(d.content, "doi:10.1016/j.neuron.2010.01.001");
    assert_eq!(d.details.doi.as_deref(), Some("10.1016/j.neuron.2010.01.001"));

    let a = find(&refs, "arxiv:2107.12345v2");
    assert_eq!(a.ref_type, RefType::Arxiv);
    assert_eq!(a.content, "arXiv:2107.12345v2");
    assert_eq!(a.details.arxiv_id.as_deref(), Some("2107.12345v2"));

    let u = find(&refs, "https://example.com/paper");
    assert_eq!(u.ref_type, RefType::Url);
    assert_eq!(u.details.url.as_deref(), Some("https://example.com/paper"));

    let b = find(&refs, "10.1038/nrn2787");
    assert_eq!(b.ref_type, RefType::Bibliography);
    assert_eq!(b.content, "Friston, K. (2010). \"The free-energy principle.\"");
    assert_eq!(b.details.title.as_deref(), Some("The free-energy principle."));
    assert_eq!(b.details.doi.as_deref(), Some("10.1038/nrn2787"));
    assert_eq!(b.citing, vec![2]);
}

#[test]
fn bibliography_without_doi_is_keyed_by_author_year() {
    let mut refs: Vec<ExtractedRef> = Vec::new();
    scan_paragraph(&mut refs, "Parr, T. and Pezzulo, G. (2022). \"Active Inference.\" MIT Press.", 4);
    assert_eq!(refs.len(), 1);
    let b = find(&refs, "pezzulo-2022");
    assert_eq!(b.details.authors.as_deref(), Some("Pezzulo, G."));
    assert_eq!(b.ref_type, RefType::Bibliography);
    assert_eq!(b.details.doi, None);
    assert_eq!(b.citing, vec![4]);
}

#[test]
fn paragraph_without_references_adds_nothing() {
    let refs = extract_references(&[(1, "Nothing to see in this plain paragraph of text.".to_string())]);
    assert!(refs.is_empty());
    assert!(extract_references(&[]).is_empty());
}

#[test]
fn extracted_keys_are_unique_and_citations_listed_once() {
    let p = "(Friston 2010) and again (Friston 2010), doi:10.1/x doi:10.1/x https://a.org https://a.org";
    let refs = extract_references(&[(5, p.to_string()), (5, p.to_string()), (6, p.to_string())]);
    for (i, a) in refs.iter().enumerate() {
        for b in refs.iter().skip(i + 1) {
            assert_ne!(a.key, b.key);
        }
        assert_eq!(a.citing, vec![5, 6]);
    }
    assert_eq!(refs.len(), 2);
}

#[test]
fn inline_citation_forms() {
    let p = "Shown by (Da Costa et al., 2020) and (Friston, FitzGerald et al. 2016) and (Parr and Friston 2019).";
    let refs = extract_references(&[(3, p.to_string())]);
    let keys: Vec<&str> = refs.iter().map(|r| r.key.as_str()).collect();
    assert_eq!(keys, vec!["da-2020", "friston-2016", "parr-2019"]);
    assert_eq!(find(&refs, "da-2020").details.authors.as_deref(), Some("Da Costa et al."));
    assert_eq!(find(&refs, "friston-2016").details.authors.as_deref(), Some("Friston, FitzGerald et al."));
}

#[test]
fn scanning_the_same_paragraphs_again_changes_nothing() {
    let ps = vec![
        (1, "(Friston 2010) doi:10.1/x https://a.org".to_string()),
        (2, "(Parr & Friston, 2019) and (Friston 2010)".to_string()),
    ];
    let once = extract_references(&ps);
    let mut twice_input = ps.clone();
    twice_input.extend(ps.iter().cloned());
    let twice = extract_references(&twice_input);
    let keys = |rs: &Vec<ExtractedRef>| rs.iter().map(|r| (r.key.clone(), r.citing.clone())).collect::<Vec<_>>();
    assert_eq!(keys(&once), keys(&twice));
}
