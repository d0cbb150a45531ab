use x86md::pdf::{LoadError, PDF};

const MINIMAL: &[u8] = b"%PDF-1.4
1 0 obj
<< /Type /Catalog /Pages 2 0 R >>
endobj
2 0 obj
<< /Type /Pages /Kids [3 0 R] /Count 1 >>
endobj
3 0 obj
<< /Type /Page /Parent 2 0 R /MediaBox [0 0 612 792] >>
endobj
trailer
<< /Root 1 0 R >>
%%EOF
";

#[test]
fn bytes_that_are_no_pdf_are_refused() {
    match PDF::try_parse(b"this is not a PDF document".to_vec()) {
        Ok(_) => panic!("loaded"),
        Err(e) => assert_eq!(e, LoadError::Invalid),
    }
}

#[test]
fn a_minimal_document_loads() {
    match PDF::try_parse(MINIMAL.to_vec()) {
        Ok(pdf) => assert_eq!(pdf.pdf.pages().len(), 1),
        Err(e) => panic!("refused: {:?}", e),
    }
}

#[test]
fn a_loadable_document_parses() {
    let pdf = PDF::parse(MINIMAL.to_vec());
    assert_eq!(pdf.pdf.pages().len(), 1);
}
