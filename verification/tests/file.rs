//! The pages of a database.

use boogy_db::file::PageFile;
use boogy_db::page::Page;

#[test]
fn test_allocate_and_read() {
    let mut pf = PageFile::open(Vec::new());

    {
        let mut guard = pf.begin_write();
        let pg0 = guard.allocate_page().unwrap();
        assert_eq!(pg0, 0);
        let mut page = guard.write_page(pg0).unwrap();
        page = Page::new_leaf();
        page.set_num_rows(5);
        page.update_checksum();
        guard.put_page(pg0, page);
        pf = guard.commit().0;
    }

    let page = pf.read_page(0).unwrap();
    assert!(page.is_leaf());
    assert_eq!(page.num_rows(), 5);
}

#[test]
fn test_persist_across_reopen() {
    let mut disk: Vec<[u8; 4096]> = Vec::new();

    {
        let mut pf = PageFile::open(disk.clone());
        let mut guard = pf.begin_write();
        let pg0 = guard.allocate_page().unwrap();
        let mut page = guard.write_page(pg0).unwrap();
        page = Page::new_leaf();
        page.set_num_rows(42);
        page.update_checksum();
        guard.put_page(pg0, page);
        pf = guard.commit().0;
        for (page_no, image) in pf.sync_all().unwrap() {
            while disk.len() <= page_no as usize {
                disk.push([0; 4096]);
            }
            disk[page_no as usize] = image;
        }
    }

    {
        let pf = PageFile::open(disk);
        assert_eq!(pf.page_count(), 1);
        let page = pf.read_page(0).unwrap();
        assert_eq!(page.num_rows(), 42);
    }
}

#[test]
fn test_discard_dirty() {
    let mut pf = PageFile::open(Vec::new());

    {
        let mut guard = pf.begin_write();
        let _pg0 = guard.allocate_page().unwrap();
        pf = guard.discard();
    }

    assert_eq!(pf.page_count(), 0);
}

#[test]
fn test_commit_returns_after_images() {
    let mut pf = PageFile::open(Vec::new());

    let after_images;
    {
        let mut guard = pf.begin_write();
        let pg0 = guard.allocate_page().unwrap();
        let mut page = guard.write_page(pg0).unwrap();
        page = Page::new_leaf();
        page.set_num_rows(3);
        page.update_checksum();
        guard.put_page(pg0, page);
        (pf, after_images) = guard.commit();
    }

    // commit() should return exactly one after-image for pg0
    assert_eq!(after_images.len(), 1);
    let (page_no, data) = &after_images[0];
    assert_eq!(*page_no, 0);
    // Verify the after-image is a leaf page with 3 rows
    let page = Page::from_bytes_unchecked(*data);
    assert!(page.is_leaf());
    assert_eq!(page.num_rows(), 3);
}

#[test]
fn test_commit_multiple_pages_after_images() {
    let mut pf = PageFile::open(Vec::new());

    let after_images;
    {
        let mut guard = pf.begin_write();
        let pg0 = guard.allocate_page().unwrap();
        let pg1 = guard.allocate_page().unwrap();

        let mut page0 = guard.write_page(pg0).unwrap();
        page0 = Page::new_leaf();
        page0.set_num_rows(1);
        page0.update_checksum();
        guard.put_page(pg0, page0);

        let mut page1 = guard.write_page(pg1).unwrap();
        page1 = Page::new_branch();
        page1.set_num_rows(2);
        page1.update_checksum();
        guard.put_page(pg1, page1);

        (pf, after_images) = guard.commit();
    }

    // Should have after-images for both pages
    assert_eq!(after_images.len(), 2);
    let page_nos: Vec<u32> = after_images.iter().map(|(pn, _)| *pn).collect();
    assert!(page_nos.contains(&0));
    assert!(page_nos.contains(&1));
}

#[test]
fn test_discard_produces_no_visible_changes() {
    let mut pf = PageFile::open(Vec::new());

    // First create a page with known data
    {
        let mut guard = pf.begin_write();
        let pg0 = guard.allocate_page().unwrap();
        let mut page = guard.write_page(pg0).unwrap();
        page = Page::new_leaf();
        page.set_num_rows(5);
        page.update_checksum();
        guard.put_page(pg0, page);
        pf = guard.commit().0;
    }

    // Now modify it but discard
    {
        let mut guard = pf.begin_write();
        let mut page = guard.write_page(0).unwrap();
        page.set_num_rows(99);
        page.update_checksum();
        guard.put_page(0, page);
        pf = guard.discard();
    }

    // Original value should be unchanged
    let page = pf.read_page(0).unwrap();
    assert_eq!(page.num_rows(), 5);
}

#[test]
fn test_write_guard_reads_dirty_overlay() {
    let mut pf = PageFile::open(Vec::new());

    // Create a page
    {
        let mut guard = pf.begin_write();
        let pg0 = guard.allocate_page().unwrap();
        let mut page = guard.write_page(pg0).unwrap();
        page = Page::new_leaf();
        page.set_num_rows(1);
        page.update_checksum();
        guard.put_page(pg0, page);
        pf = guard.commit().0;
    }

    // Within a write guard, reads should see the dirty overlay
    {
        let mut guard = pf.begin_write();
        let mut page = guard.write_page(0).unwrap();
        page.set_num_rows(42);
        page.update_checksum();
        guard.put_page(0, page);

        // Reading within the same guard should see 42
        let read = guard.read_page(0).unwrap();
        assert_eq!(read.num_rows(), 42);
        pf = guard.discard();
    }

    // After discard, original is unchanged
    let page = pf.read_page(0).unwrap();
    assert_eq!(page.num_rows(), 1);
}

#[test]
fn test_inject_drain_roundtrip() {
    let mut pf = PageFile::open(Vec::new());

    // Create a page via normal write path
    let mut guard = pf.begin_write();
    let pg0 = guard.allocate_page().unwrap();
    let mut page = guard.write_page(pg0).unwrap();
    page = Page::new_leaf();
    page.set_num_rows(3);
    page.update_checksum();
    guard.put_page(pg0, page);

    // Drain dirty pages
    let drained = guard.drain_dirty();
    assert!(drained.get(pg0).is_some());
    assert_eq!(drained.get(pg0).unwrap().num_rows(), 3);

    // Guard should have no dirty pages now
    pf = guard.discard();

    // Inject into a new guard
    let mut guard2 = pf.begin_write();
    guard2.inject_dirty(drained);

    // Should be visible via peek_dirty
    let peeked = guard2.peek_dirty(pg0).unwrap();
    assert_eq!(peeked.num_rows(), 3);

    guard2.discard();
}
