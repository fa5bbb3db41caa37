//! The documents that print jobs become.
use casa1::print::pdf::{build_pdf_objects, generate_pdf};
use casa1::print::spooler::{PrintSubsystem, PrinterInfo};

fn printer(name: &str) -> PrinterInfo {
    PrinterInfo {
        name: name.to_string(),
        port: "LPT1:".to_string(),
        driver: "driver".to_string(),
        comment: String::new(),
        location: String::new(),
        status: 0,
        attributes: 0,
        jobs: 0,
        default_priority: 1,
    }
}

#[test]
fn a_document_has_a_page_for_each_page_of_the_job() {
    let objects = build_pdf_objects(&[], "Doc", 2);
    assert_eq!(objects.len(), 8);
    assert_eq!(objects[0], "<< /Type /Catalog /Pages 2 0 R >>");
    assert_eq!(objects[1], "<< /Type /Pages /Kids [3 0 R 5 0 R] /Count 2 >>");
    assert!(objects[4].contains("/Contents 6 0 R"));
    assert!(objects[4].contains("/F1 8 0 R"));
    assert!(objects[5].contains("(Printed from Casa1 - Doc) Tj"));
    assert!(objects[5].contains("(Page 2 of 2) Tj"));
    assert_eq!(
        objects[7],
        "<< /Type /Font /Subtype /Type1 /BaseFont /Helvetica >>"
    );
}

#[test]
fn the_only_page_shows_the_spooled_bytes() {
    let objects = build_pdf_objects(&[0x00, 0xab], "a(b)\\", 0);
    assert_eq!(objects.len(), 5);
    assert_eq!(
        objects[3],
        "<< /Length 182 >> stream\n\
         BT /F1 12 Tf 100 700 Td (Printed from Casa1 - a\\(b\\)\\\\) Tj ET\n\
         BT /F1 10 Tf 100 680 Td (Page 1) Tj ET\n\
         BT /F1 8 Tf 100 650 Td (Spool data: 00ab) Tj ET\n\
         endstream"
    );
}

#[test]
fn the_table_of_a_document_leads_to_its_objects() {
    let pdf = generate_pdf(b"x", "\u{e4}", 1);
    let text = String::from_utf8(pdf.clone()).unwrap();
    let find = |part: &str| {
        pdf.windows(part.len())
            .position(|window| window == part.as_bytes())
            .unwrap()
    };
    let table = find("xref\n");
    assert!(text.ends_with(&format!("startxref\n{table}\n%%EOF\n")));
    assert!(text.contains("trailer\n<< /Size 6 /Root 1 0 R >>\n"));
    for number in 1..=5 {
        let at = find(&format!("{number} 0 obj\n"));
        assert!(text.contains(&format!("{at:010} 00000 n \n")));
    }
    assert!(text.starts_with("%PDF-1.4\n1 0 obj\n"));
}

#[test]
fn what_is_written_is_printed_in_order() {
    let mut subsystem = PrintSubsystem::new();
    let handle = subsystem.open_printer(None).unwrap();
    let job = subsystem.start_doc_printer(handle, "My Doc").unwrap();
    assert_eq!(subsystem.active_job_for_printer(handle), Some(job));
    assert!(subsystem.start_page_printer(job));
    assert!(subsystem.write_printer(job, &[1, 2]));
    assert!(subsystem.write_printer(job, &[3]));
    assert!(!subsystem.write_printer(job + 1, &[9]));
    let document = subsystem.end_doc_printer(job).unwrap();
    assert_eq!(document.file_name, "print_1_My_Doc.pdf");
    assert_eq!(document.pdf, generate_pdf(&[1, 2, 3], "My Doc", 1));
    assert_eq!(subsystem.active_job_for_printer(handle), None);
    assert!(subsystem.end_doc_printer(job + 1).is_none());
}

#[test]
fn a_device_context_is_changed_in_place() {
    let mut subsystem = PrintSubsystem::new();
    let handle = subsystem.create_printer_dc("p").unwrap();
    let other = subsystem.create_printer_dc("q").unwrap();
    subsystem.get_printer_dc_mut(handle).unwrap().job_id = Some(7);
    assert_eq!(subsystem.get_printer_dc(handle).unwrap().job_id, Some(7));
    assert_eq!(subsystem.get_printer_dc(other).unwrap().job_id, None);
    assert!(subsystem.get_printer_dc_mut(other + 1).is_none());
    assert!(subsystem.delete_printer_dc(handle));
    assert!(subsystem.get_printer_dc_mut(handle).is_none());
}

#[test]
fn of_printers_with_one_name_the_first_is_opened() {
    let mut subsystem = PrintSubsystem::new();
    let first = subsystem.add_printer(printer("twin")).unwrap();
    let second = subsystem.add_printer(printer("twin")).unwrap();
    assert!(first < second);
    assert_eq!(subsystem.open_printer(Some("twin")), Some(first));
    assert!(subsystem.delete_printer(first));
    assert_eq!(subsystem.open_printer(Some("twin")), Some(second));
    let names: Vec<&str> = subsystem
        .enum_printers()
        .iter()
        .map(|info| info.name.as_str())
        .collect();
    assert_eq!(names, vec!["Microsoft Print to PDF", "twin"]);
    assert!(!subsystem.set_printer(first, printer("gone")));
    let mut buffer = [5u8; 2];
    assert_eq!(subsystem.read_printer(1, &mut buffer), Some(0));
    assert_eq!(buffer, [5, 5]);
}
