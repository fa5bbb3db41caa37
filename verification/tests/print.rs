//! Printers, print jobs and their documents.
use casa1::print::spooler::{PrintJobStatus, PrintSubsystem, PrinterInfo};

#[test]
fn test_open_close_printer() {
    let mut ps = PrintSubsystem::new();
    let handle = ps.open_printer(Some("Microsoft Print to PDF"));
    assert!(handle.is_some(), "Should open default printer");
    assert_eq!(handle.expect("handle should be Some"), 1);

    // Open with None should return default
    let handle2 = ps.open_printer(None);
    assert!(handle2.is_some(), "should get default printer handle");

    // Open non-existent printer
    let handle3 = ps.open_printer(Some("NonExistentPrinter"));
    assert!(handle3.is_none());

    // Close should succeed
    assert!(ps.close_printer(1));
}

#[test]
fn test_start_end_doc() {
    let mut ps = PrintSubsystem::new();
    let handle = ps.open_printer(None).expect("should open default printer");

    let job_id = ps.start_doc_printer(handle, "TestDoc");
    assert!(job_id.is_some(), "Should create a print job");
    let job_id = job_id.expect("job_id should be Some");
    assert_eq!(job_id, 1);

    let job = ps.jobs.get(&job_id);
    assert!(job.is_some(), "job should exist after start_doc");
    let job = job.expect("job should be Some");
    assert_eq!(job.document_name, "TestDoc");
    assert_eq!(job.status, PrintJobStatus::Spooling);

    assert!(ps.end_doc_printer(job_id).is_some());
    let job = ps.jobs.get(&job_id);
    assert!(job.is_some(), "job should exist after end_doc");
    assert_eq!(
        job.expect("job should be Some").status,
        PrintJobStatus::Completed
    );
}

#[test]
fn test_start_end_page() {
    let mut ps = PrintSubsystem::new();
    let handle = ps.open_printer(None).expect("should open default printer");
    let job_id = ps
        .start_doc_printer(handle, "PageTest")
        .expect("should start document");

    assert!(ps.start_page_printer(job_id));
    assert_eq!(
        ps.jobs.get(&job_id).expect("job should exist").page_count,
        1
    );

    assert!(ps.start_page_printer(job_id));
    assert_eq!(
        ps.jobs.get(&job_id).expect("job should exist").page_count,
        2
    );

    assert!(ps.end_page_printer(job_id));
}

#[test]
fn test_write_printer() {
    let mut ps = PrintSubsystem::new();
    let handle = ps.open_printer(None).expect("should open default printer");
    let job_id = ps
        .start_doc_printer(handle, "WriteTest")
        .expect("should start document");

    let data = b"Hello, Printer!";
    assert!(ps.write_printer(job_id, data));

    let job = ps.jobs.get(&job_id).expect("job should exist");
    assert_eq!(job.spool_data, data);

    // Write more data
    let data2 = b"More data";
    assert!(ps.write_printer(job_id, data2));
    assert_eq!(
        ps.jobs.get(&job_id).expect("job should exist").spool_data,
        b"Hello, Printer!More data"
    );
}

#[test]
fn test_enum_printers() {
    let ps = PrintSubsystem::new();
    let printers = ps.enum_printers();
    assert!(!printers.is_empty(), "Should have at least 1 printer");
    assert_eq!(printers.len(), 1);
    assert_eq!(printers[0].name, "Microsoft Print to PDF");
}

#[test]
fn test_get_printer() {
    let ps = PrintSubsystem::new();
    let printer = ps.get_printer(1);
    assert!(printer.is_some(), "printer 1 should exist");
    assert_eq!(
        printer.expect("printer should be Some").name,
        "Microsoft Print to PDF"
    );

    let printer = ps.get_printer(999);
    assert!(printer.is_none());
}

#[test]
fn test_add_delete_printer() {
    let mut ps = PrintSubsystem::new();
    let handle = ps.add_printer(PrinterInfo {
        name: "Test Printer".to_string(),
        port: "USB001:".to_string(),
        driver: "Test Driver".to_string(),
        comment: "Test".to_string(),
        location: "Office".to_string(),
        status: 0,
        attributes: 0,
        jobs: 0,
        default_priority: 1,
    });
    assert!(handle.is_some(), "add_printer should return Some handle");
    let handle = handle.expect("handle should be Some");

    let printer = ps.get_printer(handle);
    assert!(printer.is_some(), "get_printer should find added printer");
    assert_eq!(
        printer.expect("printer should be Some").name,
        "Test Printer"
    );

    assert!(ps.delete_printer(handle));
    assert!(
        ps.get_printer(handle).is_none(),
        "deleted printer should be gone"
    );
}

#[test]
fn test_create_printer_dc() {
    let mut ps = PrintSubsystem::new();
    let dc = ps.create_printer_dc("Microsoft Print to PDF");
    assert!(dc.is_some(), "Should create a printer DC");
    let dc = dc.expect("dc should be Some");

    let dc_info = ps.get_printer_dc(dc);
    assert!(dc_info.is_some(), "DC info should be retrievable");
    assert_eq!(
        dc_info.expect("dc_info should be Some").printer_name,
        "Microsoft Print to PDF"
    );

    assert!(ps.delete_printer_dc(dc));
}

#[test]
fn test_pdf_generation_single_page() {
    let ps = PrintSubsystem::new();
    let spool_data = b"Test spool content for PDF generation";
    let pdf = ps.generate_pdf(spool_data, "PDFTest", 1);

    // Verify it's a valid PDF with header
    assert!(pdf.starts_with(b"%PDF-1.4"), "Should start with PDF header");

    // Verify it contains our content
    let pdf_str = String::from_utf8_lossy(&pdf);
    assert!(pdf_str.contains("PDFTest"), "Should contain document name");
    assert!(
        pdf_str.contains("Printed from Casa1"),
        "Should contain Casa1 marker"
    );
    assert!(pdf_str.contains("Page 1"), "Should contain page number");

    // Verify cross-reference table is present
    assert!(
        pdf_str.contains("xref"),
        "Should contain cross-reference table"
    );
    assert!(pdf_str.contains("%%EOF"), "Should end with EOF marker");
}

#[test]
fn test_pdf_generation_multi_page() {
    let ps = PrintSubsystem::new();
    let spool_data = b"Multi-page test content";
    let pdf = ps.generate_pdf(spool_data, "MultiPageTest", 3);

    let pdf_str = String::from_utf8_lossy(&pdf);
    assert!(
        pdf_str.starts_with("%PDF-1.4"),
        "Should start with PDF header"
    );
    assert!(
        pdf_str.contains("MultiPageTest"),
        "Should contain document name"
    );
    assert!(
        pdf_str.contains("Page 1 of 3"),
        "Should contain page 1 of 3"
    );
    assert!(
        pdf_str.contains("Page 2 of 3"),
        "Should contain page 2 of 3"
    );
    assert!(
        pdf_str.contains("Page 3 of 3"),
        "Should contain page 3 of 3"
    );
    assert!(
        pdf_str.contains("/Count 3"),
        "Pages tree should have Count 3"
    );
    assert!(pdf_str.contains("%%EOF"), "Should end with EOF marker");
}

#[test]
fn test_read_printer() {
    let mut ps = PrintSubsystem::new();
    let handle = ps.open_printer(None).unwrap();
    let job_id = ps.start_doc_printer(handle, "ReadTest").unwrap();

    let mut buf = [0u8; 64];
    let bytes_read = ps.read_printer(job_id, &mut buf);
    assert!(bytes_read.is_some());
    assert_eq!(bytes_read.unwrap(), 0, "ReadPrinter should return 0 bytes");
}

#[test]
fn test_set_printer() {
    let mut ps = PrintSubsystem::new();
    assert!(ps.set_printer(
        1,
        PrinterInfo {
            name: "Updated Printer".to_string(),
            port: "LPT1:".to_string(),
            driver: "Updated".to_string(),
            comment: "Updated comment".to_string(),
            location: "Lab".to_string(),
            status: 0,
            attributes: 0,
            jobs: 0,
            default_priority: 1,
        }
    ));

    let printer = ps.get_printer(1).unwrap();
    assert_eq!(printer.name, "Updated Printer");

    // Set non-existent printer
    assert!(!ps.set_printer(
        999,
        PrinterInfo {
            name: "Ghost".to_string(),
            port: "".to_string(),
            driver: "".to_string(),
            comment: "".to_string(),
            location: "".to_string(),
            status: 0,
            attributes: 0,
            jobs: 0,
            default_priority: 1,
        }
    ));
}

#[test]
fn test_job_lifecycle_complete() {
    let mut ps = PrintSubsystem::new();
    let handle = ps.open_printer(None).unwrap();

    // Full lifecycle: open → start doc → pages → write → end doc
    let job_id = ps.start_doc_printer(handle, "LifecycleTest").unwrap();

    assert!(ps.start_page_printer(job_id));
    assert!(ps.write_printer(job_id, b"Page 1 content"));
    assert!(ps.end_page_printer(job_id));

    assert!(ps.start_page_printer(job_id));
    assert!(ps.write_printer(job_id, b"Page 2 content"));
    assert!(ps.end_page_printer(job_id));

    assert!(ps.end_doc_printer(job_id).is_some());

    let job = ps.jobs.get(&job_id).unwrap();
    assert_eq!(job.status, PrintJobStatus::Completed);
    assert_eq!(job.page_count, 2);
    assert!(!job.spool_data.is_empty());
}

#[test]
fn test_end_doc_printer_finalizes_status() {
    let mut ps = PrintSubsystem::new();

    let handle = ps.open_printer(None).expect("should open printer");

    let job_id = ps
        .start_doc_printer(handle, "finalize_test")
        .expect("should start document");

    assert!(ps.start_page_printer(job_id), "should start page");
    assert!(ps.write_printer(job_id, b"test data"), "should write data");
    assert!(ps.end_page_printer(job_id), "should end page");

    // End document - status should become Completed
    assert!(ps.end_doc_printer(job_id).is_some(), "should end document");

    // Verify the job status is Completed
    let job = ps.jobs.get(&job_id).expect("job should still exist");
    assert_eq!(
        job.status,
        PrintJobStatus::Completed,
        "job status should be Completed"
    );
    assert_eq!(job.page_count, 1, "should have 1 page");
    assert!(!job.spool_data.is_empty(), "spool data should not be empty");

    assert!(ps.close_printer(handle), "should close printer");
}

#[test]
fn test_end_doc_printer_with_empty_spool() {
    let mut ps = PrintSubsystem::new();

    let handle = ps.open_printer(None).expect("should open printer");

    let job_id = ps
        .start_doc_printer(handle, "empty_doc")
        .expect("should start document");

    // End document with no pages
    assert!(
        ps.end_doc_printer(job_id).is_some(),
        "should end document even with no pages"
    );

    // Verify the job exists and has Completed status
    let job = ps
        .jobs
        .get(&job_id)
        .expect("job should exist after end_doc");
    assert_eq!(
        job.status,
        PrintJobStatus::Completed,
        "job should be Completed"
    );
    assert_eq!(job.page_count, 0, "no pages were started");

    assert!(ps.close_printer(handle), "should close printer");
}

#[test]
fn test_job_lifecycle_multiple_pages() {
    let mut ps = PrintSubsystem::new();

    let handle = ps.open_printer(None).expect("should open printer");

    let job_id = ps
        .start_doc_printer(handle, "multipage_doc")
        .expect("should start document");

    // Write multiple pages of data
    for page in 1..=5 {
        assert!(ps.start_page_printer(job_id), "should start page {}", page);
        assert!(
            ps.write_printer(job_id, format!("page {} content", page).as_bytes()),
            "should write page {} data",
            page
        );
        assert!(ps.end_page_printer(job_id), "should end page {}", page);
    }

    // End the document
    assert!(ps.end_doc_printer(job_id).is_some(), "should end multi-page document");

    // Verify the job has correct metadata
    let job = ps.jobs.get(&job_id).expect("job should exist");
    assert_eq!(
        job.status,
        PrintJobStatus::Completed,
        "job should be Completed"
    );
    assert_eq!(job.page_count, 5, "should have 5 pages");

    assert!(ps.close_printer(handle), "should close printer");
}

#[test]
fn test_printer_handle_rejects_operations_after_close() {
    let mut ps = PrintSubsystem::new();

    let handle = ps.open_printer(None).expect("should open printer");
    assert!(ps.close_printer(handle), "should close printer");

    // After close, start_doc_printer with the old handle should still work
    // (since the handle is just a number, not tracked for validity)
    // But the printer is removed from the printers map
    assert!(ps.close_printer(handle), "double close should succeed");
}

#[test]
fn test_job_lifecycle_start_end_page_without_write() {
    let mut ps = PrintSubsystem::new();

    let handle = ps.open_printer(None).expect("should open printer");

    let job_id = ps
        .start_doc_printer(handle, "empty_page_doc")
        .expect("should start document");

    // Start and end a page without writing any data
    assert!(ps.start_page_printer(job_id), "should start empty page");
    assert!(ps.end_page_printer(job_id), "should end empty page");

    // Write data on a second page
    assert!(ps.start_page_printer(job_id), "should start second page");
    assert!(
        ps.write_printer(job_id, b"data on second page"),
        "should write data"
    );
    assert!(ps.end_page_printer(job_id), "should end second page");

    assert!(ps.end_doc_printer(job_id).is_some(), "should end document");

    // Verify job details
    let job = ps.jobs.get(&job_id).expect("job should exist");
    assert_eq!(job.status, PrintJobStatus::Completed);
    assert_eq!(job.page_count, 2, "should have 2 pages");
    assert!(!job.spool_data.is_empty(), "should have spool data");

    assert!(ps.close_printer(handle), "should close printer");
}
