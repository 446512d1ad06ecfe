use std::cell::{Cell, RefCell};
use std::rc::Rc;
use std::time::Duration;

use bundle_reload::fingerprint::to_hex;
use bundle_reload::{
    force_poll, poll_once, reload_once, start, start_async, start_async_with_options,
    start_with_options, static_only, BundlePath, BundleReload, BundleReloadOptions, BundleSource,
    DirEntry, DirReply, FingerprintStep, ListStep, PollEnd, ReloadError, Started, WakeCause,
    WatchStep, Watcher,
};

/// A permit of the hooks below, and a hook.
type Permit = Rc<Cell<usize>>;
type Hook = Box<dyn Fn() -> Option<Counted>>;

/// Counts how often a permit was dropped.
struct Counted(Permit);

impl Drop for Counted {
    fn drop(&mut self) {
        self.0.set(self.0.get() + 1);
    }
}

/// Files held in memory; directories are the proper prefixes of their paths.
struct Disk {
    files: Vec<(String, Vec<u8>)>,
    unreadable: Vec<String>,
}

impl Disk {
    fn new(files: &[(&str, &str)]) -> Disk {
        let mut disk = Disk { files: Vec::new(), unreadable: Vec::new() };
        for (path, content) in files {
            disk.write(path, content);
        }
        disk
    }

    fn write(&mut self, path: &str, content: &str) {
        self.files.retain(|(p, _)| p != path);
        self.files.push((path.to_string(), content.as_bytes().to_vec()));
    }

    fn read_dir(&self, dir: &BundlePath) -> DirReply {
        let dir = dir.text();
        if self.unreadable.contains(&dir) {
            return DirReply::Unreadable("permission denied".to_string());
        }
        let prefix = format!("{dir}/");
        let mut entries: Vec<DirEntry> = Vec::new();
        let mut seen: Vec<String> = Vec::new();
        for (path, _) in &self.files {
            let Some(rest) = path.strip_prefix(&prefix) else { continue };
            let name = rest.split('/').next().unwrap();
            let child = format!("{prefix}{name}");
            if seen.contains(&child) {
                continue;
            }
            seen.push(child.clone());
            if self.unreadable.contains(&child) && rest == name {
                entries.push(DirEntry::Unreadable("stale handle".to_string()));
            } else if rest == name {
                entries.push(DirEntry::File(BundlePath::from_text(&child)));
            } else {
                entries.push(DirEntry::Dir(BundlePath::from_text(&child)));
            }
        }
        if seen.is_empty() {
            DirReply::NotADirectory
        } else {
            DirReply::Entries(entries)
        }
    }

    fn read(&self, path: &BundlePath) -> Result<Vec<u8>, String> {
        let path = path.text();
        if self.unreadable.contains(&path) {
            return Err("permission denied".to_string());
        }
        self.files
            .iter()
            .find(|(p, _)| *p == path)
            .map(|(_, content)| content.clone())
            .ok_or("no such file".to_string())
    }

    fn list(&self, source: &BundleSource) -> Result<Vec<BundlePath>, ReloadError> {
        let mut step = source.list_files();
        loop {
            step = match step {
                ListStep::Done(result) => return result,
                ListStep::ReadDir(walk) => {
                    let reply = self.read_dir(walk.dir());
                    walk.supply(reply)
                }
            };
        }
    }

    fn names(&self, source: &BundleSource) -> Vec<String> {
        self.list(source).unwrap().iter().map(|p| p.text()).collect()
    }

    fn fingerprint(&self, source: &BundleSource) -> Result<String, ReloadError> {
        let mut step = source.fingerprint();
        loop {
            step = match step {
                FingerprintStep::Done(result) => return result,
                FingerprintStep::ReadDir(read) => {
                    let reply = self.read_dir(read.dir());
                    read.supply(reply)
                }
                FingerprintStep::ReadFile(read) => {
                    let content = self.read(read.path());
                    read.supply(content)
                }
            };
        }
    }

    fn parse_count_bytes(&self, source: &BundleSource) -> Result<usize, ReloadError> {
        let mut total = 0;
        for path in self.list(source)? {
            let bytes = self
                .read(&path)
                .map_err(|error| ReloadError::Io { path: path.text(), error })?;
            total += bytes.len();
        }
        Ok(total)
    }

    fn started(&self, source: &BundleSource, interval: Duration) -> Started<usize, Hook> {
        let fingerprint = self.fingerprint(source);
        let parser = |s: &BundleSource| self.parse_count_bytes(s);
        start(source, fingerprint, &parser, interval).unwrap()
    }

    fn start(&self, source: &BundleSource, interval: Duration) -> BundleReload<usize> {
        self.started(source, interval).open().0
    }

    fn poll(
        &self,
        watcher: Watcher,
        cause: WakeCause,
        source: &BundleSource,
        hook: Option<&Hook>,
        bundle: &BundleReload<usize>,
    ) -> (Watcher, PollEnd) {
        let mut step: WatchStep<usize, Counted> = watcher.wake(cause);
        loop {
            step = match step {
                WatchStep::Consult(gate) => gate.answer(hook.unwrap()()),
                WatchStep::Fingerprint(poll) => poll.fingerprinted(self.fingerprint(source)),
                WatchStep::Parse(reload) => reload.parsed(self.parse_count_bytes(source)),
                WatchStep::Swap(swap) => swap.publish(bundle),
                WatchStep::Idle(watcher, end) => return (watcher, end),
            };
        }
    }
}

fn file(path: &str) -> BundleSource {
    BundleSource::File(BundlePath::from_text(path))
}

fn files(paths: &[&str]) -> BundleSource {
    BundleSource::Files(paths.iter().map(|p| BundlePath::from_text(p)).collect())
}

fn directory(root: &str, extension: Option<&str>) -> BundleSource {
    BundleSource::Directory {
        root: BundlePath::from_text(root),
        extension: extension.map(|e| e.to_string()),
    }
}

fn io_error(error: ReloadError) -> (String, String) {
    match error {
        ReloadError::Io { path, error } => (path, error),
        ReloadError::Parse(reason) => panic!("parse error {reason}"),
    }
}

#[test]
fn single_file_source_initial_load() {
    let disk = Disk::new(&[("bundle.txt", "hello")]);
    let source = file("bundle.txt");
    let bundle = disk.start(&source, Duration::from_millis(50));
    assert_eq!(*bundle.load(), 5);
    let fp1 = bundle.fingerprint();
    let fp2 = bundle.fingerprint();
    assert_eq!(fp1, fp2);
    assert_eq!(fp1, "5eafe39f537ec8119114ba0d211d67847ef1b56cd3996b75c5249b910595b3e8");
}

#[test]
fn directory_source_aggregates_files() {
    let disk = Disk::new(&[("p/a.cedar", "AAA"), ("p/b.cedar", "BB"), ("p/c.txt", "ignore-me")]);
    let source = directory("p", Some("cedar"));
    let bundle = disk.start(&source, Duration::from_millis(50));
    assert_eq!(*bundle.load(), 5);
    assert_eq!(
        bundle.fingerprint(),
        "e858b9940d780ccf499e347caa528b384940ad86d8f12ab9cd9b92b7cd447f4f"
    );
}

#[test]
fn fingerprint_changes_when_file_changes() {
    let mut disk = Disk::new(&[("bundle.txt", "v1")]);
    let source = file("bundle.txt");
    let fp_v1 = disk.fingerprint(&source).unwrap();
    disk.write("bundle.txt", "v2-different");
    let fp_v2 = disk.fingerprint(&source).unwrap();
    assert_ne!(fp_v1, fp_v2);
    assert_eq!(fp_v1, "c5efd1ab4516ba7e6f2b89f0a76fad49f9f26627db92129989f7d3061316af02");
    assert_eq!(fp_v2, "723e44f4394ed2bab3ceb639d41b615a24dd68d3fe45ce5ba96f07d73a2b6363");
}

#[test]
fn watcher_swaps_bundle_when_file_changes() {
    let mut disk = Disk::new(&[("bundle.txt", "abc")]);
    let source = file("bundle.txt");
    let bundle = disk.start(&source, Duration::from_millis(20));
    assert_eq!(*bundle.load(), 3);
    let fp1 = bundle.fingerprint();
    let watcher = Watcher::new(bundle.fingerprint(), false);
    let (watcher, end) = disk.poll(watcher, WakeCause::Tick, &source, None, &bundle);
    assert!(matches!(end, PollEnd::Unchanged));

    disk.write("bundle.txt", "1234567");
    let (watcher, end) = disk.poll(watcher, WakeCause::Tick, &source, None, &bundle);
    assert_eq!(*bundle.load(), 7);
    assert_ne!(bundle.fingerprint(), fp1);
    let fp2 = bundle.fingerprint();
    assert!(matches!(end, PollEnd::Swapped { old_fp, new_fp } if old_fp == fp1 && new_fp == fp2));
    assert_eq!(*watcher.last_fp(), fp2);

    let (_, end) = disk.poll(watcher, WakeCause::Tick, &source, None, &bundle);
    assert!(matches!(end, PollEnd::Unchanged));
}

#[test]
fn parse_failure_keeps_previous_bundle() {
    let mut disk = Disk::new(&[("bundle.txt", "good")]);
    let source = file("bundle.txt");
    let parse = |disk: &Disk| {
        // Reject any file with content "bad".
        for path in disk.list(&source)? {
            if disk.read(&path).unwrap() == b"bad" {
                return Err(ReloadError::Parse("nope".into()));
            }
        }
        disk.parse_count_bytes(&source)
    };
    let started: Started<usize, Hook> = start(
        &source,
        disk.fingerprint(&source),
        &|_: &BundleSource| parse(&disk),
        Duration::from_millis(20),
    )
    .unwrap();
    let mut watcher = started.watcher();
    let bundle = started.open().0;
    assert_eq!(*bundle.load(), 4);
    let good = bundle.fingerprint();
    disk.write("bundle.txt", "bad");
    let bad = disk.fingerprint(&source).unwrap();
    for _ in 0..3 {
        let mut step: WatchStep<usize, ()> = watcher.wake(WakeCause::Tick);
        let (next, end) = loop {
            step = match step {
                WatchStep::Consult(_) => panic!("no hook to ask"),
                WatchStep::Fingerprint(poll) => poll.fingerprinted(disk.fingerprint(&source)),
                WatchStep::Parse(reload) => reload.parsed(parse(&disk)),
                WatchStep::Swap(swap) => swap.publish(&bundle),
                WatchStep::Idle(watcher, end) => break (watcher, end),
            };
        };
        assert_eq!(*next.last_fp(), good);
        match end {
            PollEnd::ParseFailed { old_fp, new_fp, error } => {
                assert_eq!(old_fp, good);
                assert_eq!(new_fp, bad);
                assert_eq!(error.message(), "bundle parse failed: nope");
            }
            other => panic!("{other:?}"),
        }
        watcher = next;
    }
    assert_eq!(*bundle.load(), 4);
    assert_eq!(bundle.fingerprint(), good);
}

#[test]
fn static_only_constructor_works() {
    let bundle: BundleReload<u32> = static_only(42, "fp-static".into());
    assert_eq!(*bundle.load(), 42);
    assert_eq!(bundle.fingerprint(), "fp-static");
}

#[test]
fn replace_swaps_in_external_bundle() {
    let bundle: BundleReload<u32> = static_only(1, "fp-1".into());
    bundle.replace(2, "fp-2".into());
    assert_eq!(*bundle.load(), 2);
    assert_eq!(bundle.fingerprint(), "fp-2");
}

#[test]
fn pre_tick_skip_keeps_old_bundle() {
    let mut disk = Disk::new(&[("bundle.txt", "abc")]);
    let source = file("bundle.txt");
    let pre_tick: Hook = Box::new(|| None);
    let opts = BundleReloadOptions::new(Duration::from_millis(40)).with_pre_tick(pre_tick);
    let started = start_with_options(
        &source,
        disk.fingerprint(&source),
        &|s: &BundleSource| disk.parse_count_bytes(s),
        opts,
    )
    .unwrap();
    let mut watcher = started.watcher();
    let (bundle, options) = started.open();
    assert_eq!(*bundle.load(), 3);
    assert_eq!(options.interval, Duration::from_millis(40));

    disk.write("bundle.txt", "abcdef");
    for _ in 0..3 {
        let hook = options.pre_tick.as_ref();
        let (next, end) = disk.poll(watcher, WakeCause::Tick, &source, hook, &bundle);
        assert!(matches!(end, PollEnd::Declined));
        watcher = next;
    }
    assert_eq!(*bundle.load(), 3);
}

fn woken(bundle: &BundleReload<usize>) -> bool {
    let runtime = tokio::runtime::Builder::new_current_thread().enable_time().build().unwrap();
    let notify = bundle.notify();
    runtime.block_on(async {
        tokio::time::timeout(Duration::from_millis(50), notify.notified()).await.is_ok()
    })
}

#[test]
fn poke_triggers_out_of_band_poll() {
    let mut disk = Disk::new(&[("bundle.txt", "abc")]);
    let source = file("bundle.txt");
    let bundle = disk.start(&source, Duration::from_secs(5));
    assert_eq!(*bundle.load(), 3);
    let watcher = Watcher::new(bundle.fingerprint(), false);

    disk.write("bundle.txt", "abcdefgh");
    assert!(!woken(&bundle));
    bundle.poke();
    assert!(woken(&bundle));
    let _ = disk.poll(watcher, WakeCause::Poke, &source, None, &bundle);
    assert_eq!(*bundle.load(), 8, "poke should have caused an out-of-band reload");
}

#[test]
fn poke_handle_works_from_detached_context() {
    let mut disk = Disk::new(&[("bundle.txt", "ab")]);
    let source = file("bundle.txt");
    let started = disk.started(&source, Duration::from_secs(5));
    let watcher = started.watcher();
    let bundle = started.open().0;
    let poke = bundle.poke_handle().clone();

    disk.write("bundle.txt", "abcde");
    poke.poke();
    assert!(woken(&bundle));
    let _ = disk.poll(watcher, WakeCause::Poke, &source, None, &bundle);
    assert_eq!(*bundle.load(), 5, "PokeHandle clone should wake the watcher");
}

#[test]
fn poke_respects_pre_tick_decline() {
    let mut disk = Disk::new(&[("bundle.txt", "abc")]);
    let source = file("bundle.txt");
    let pre_tick: Hook = Box::new(|| None);
    let opts = BundleReloadOptions::new(Duration::from_secs(5)).with_pre_tick(pre_tick);
    let started = start_with_options(
        &source,
        disk.fingerprint(&source),
        &|s: &BundleSource| disk.parse_count_bytes(s),
        opts,
    )
    .unwrap();
    let mut watcher = started.watcher();
    let (bundle, options) = started.open();
    disk.write("bundle.txt", "abcdefgh");
    for _ in 0..5 {
        bundle.poke();
        assert!(woken(&bundle));
        let hook = options.pre_tick.as_ref();
        let (next, end) = disk.poll(watcher, WakeCause::Poke, &source, hook, &bundle);
        assert!(matches!(end, PollEnd::Declined));
        watcher = next;
    }
    assert_eq!(*bundle.load(), 3);
}

#[test]
fn pre_tick_some_permit_dropped_after_each_tick() {
    let disk = Disk::new(&[("bundle.txt", "abc")]);
    let source = file("bundle.txt");
    let drops: Permit = Rc::new(Cell::new(0));
    let for_hook = Rc::clone(&drops);
    let pre_tick: Hook = Box::new(move || Some(Counted(Rc::clone(&for_hook))));
    let opts = BundleReloadOptions::new(Duration::from_millis(40)).with_pre_tick(pre_tick);
    let started = start_with_options(
        &source,
        disk.fingerprint(&source),
        &|s: &BundleSource| disk.parse_count_bytes(s),
        opts,
    )
    .unwrap();
    let mut watcher = started.watcher();
    let (bundle, options) = started.open();
    for done in 0..3 {
        assert_eq!(drops.get(), done);
        let hook = options.pre_tick.as_ref();
        let (next, _) = disk.poll(watcher, WakeCause::Tick, &source, hook, &bundle);
        watcher = next;
    }
    assert!(drops.get() >= 2);
    assert_eq!(drops.get(), 3);
}

#[test]
fn permit_is_held_until_the_bundle_is_in_use() {
    let bundle: BundleReload<usize> = static_only(1, "old".into());
    let drops: Permit = Rc::new(Cell::new(0));
    let step: WatchStep<usize, Counted> = Watcher::new("old".into(), true).wake(WakeCause::Tick);
    let WatchStep::Consult(gate) = step else { panic!("hook not asked") };
    let step: WatchStep<usize, Counted> = gate.answer(Some(Counted(Rc::clone(&drops))));
    let WatchStep::Fingerprint(poll) = step else { panic!("no fingerprint asked for") };
    let step: WatchStep<usize, Counted> = poll.fingerprinted(Ok("new".into()));
    let WatchStep::Parse(reload) = step else { panic!("no parse asked for") };
    let step = reload.parsed(Ok(2));
    let WatchStep::Swap(swap) = step else { panic!("no swap") };
    assert_eq!(drops.get(), 0);
    assert_eq!(*bundle.load(), 1);
    let step = swap.publish(&bundle);
    assert_eq!(drops.get(), 1);
    assert_eq!(*bundle.load(), 2);
    assert_eq!(bundle.fingerprint(), "new");
    assert!(matches!(step, WatchStep::Idle(_, PollEnd::Swapped { .. })));
}

#[test]
fn failed_fingerprint_keeps_previous_bundle() {
    let mut disk = Disk::new(&[("bundle.txt", "good")]);
    let source = file("bundle.txt");
    let started = disk.started(&source, Duration::from_millis(20));
    let watcher = started.watcher();
    let bundle = started.open().0;
    disk.unreadable.push("bundle.txt".to_string());
    let (_, end) = disk.poll(watcher, WakeCause::Tick, &source, None, &bundle);
    match end {
        PollEnd::FingerprintFailed(error) => {
            assert_eq!(error.message(), "bundle I/O on `bundle.txt`: permission denied");
        }
        other => panic!("{other:?}"),
    }
    assert_eq!(*bundle.load(), 4);
}

#[test]
fn watcher_compares_with_its_own_last_fingerprint() {
    let disk = Disk::new(&[("bundle.txt", "abc")]);
    let source = file("bundle.txt");
    let started = disk.started(&source, Duration::from_millis(20));
    let watcher = started.watcher();
    let bundle = started.open().0;
    bundle.replace(99, "from elsewhere".into());
    let (_, end) = disk.poll(watcher, WakeCause::Tick, &source, None, &bundle);
    assert!(matches!(end, PollEnd::Unchanged));
    assert_eq!(*bundle.load(), 99);
}

#[test]
fn clones_share_the_bundle_and_its_wake_up() {
    let bundle: BundleReload<usize> = static_only(1, "fp-1".into());
    let copy = bundle.clone();
    copy.replace(2, "fp-2".into());
    assert_eq!(*bundle.load(), 2);
    assert_eq!(bundle.fingerprint(), "fp-2");
    copy.poke();
    assert!(woken(&bundle));
}

#[test]
fn a_snapshot_outlives_a_replacement() {
    let bundle: BundleReload<u32> = static_only(1, "fp-1".into());
    let before = bundle.snapshot();
    let held = bundle.load();
    bundle.replace(2, "fp-2".into());
    assert_eq!(*held, 1);
    assert_eq!(*before.load(), 1);
    assert_eq!(before.fingerprint(), "fp-1");
}

#[test]
fn pokes_before_a_wake_up_count_as_one() {
    let bundle: BundleReload<usize> = static_only(1, "fp-1".into());
    for _ in 0..4 {
        bundle.poke();
    }
    assert!(woken(&bundle));
    assert!(!woken(&bundle));
}

#[test]
fn directories_are_walked_at_any_depth() {
    let disk = Disk::new(&[
        ("p/z/deep/er/x.cedar", "1"),
        ("p/b.cedar", "2"),
        ("p/z.cedar", "3"),
        ("p/a/y.cedar", "4"),
        ("p/a/y.txt", "5"),
        ("q/other.cedar", "6"),
    ]);
    assert_eq!(
        disk.names(&directory("p", Some("cedar"))),
        ["p/a/y.cedar", "p/b.cedar", "p/z/deep/er/x.cedar", "p/z.cedar"]
    );
    assert_eq!(
        disk.names(&directory("p", None)),
        ["p/a/y.cedar", "p/a/y.txt", "p/b.cedar", "p/z/deep/er/x.cedar", "p/z.cedar"]
    );
}

#[test]
fn listing_does_not_depend_on_directory_order() {
    let content = [("p/c", "1"), ("p/a/2", "2"), ("p/b", "3"), ("p/a/1", "4")];
    let mut backwards = content;
    backwards.reverse();
    let source = directory("p", None);
    assert_eq!(Disk::new(&content).names(&source), Disk::new(&backwards).names(&source));
    assert_eq!(
        Disk::new(&content).fingerprint(&source).unwrap(),
        Disk::new(&backwards).fingerprint(&source).unwrap()
    );
}

#[test]
fn composite_lists_its_parts_in_one_order() {
    let disk = Disk::new(&[("p/b.cedar", "1"), ("p/d.cedar", "2"), ("schema", "3")]);
    let source = BundleSource::Composite(vec![
        file("schema"),
        directory("p", Some("cedar")),
        BundleSource::Composite(vec![files(&["p/c.json", "a.json"])]),
    ]);
    assert_eq!(disk.names(&source), ["a.json", "p/b.cedar", "p/c.json", "p/d.cedar", "schema"]);
    assert_eq!(disk.names(&source.clone()), disk.names(&source));
    assert!(disk.names(&BundleSource::Composite(Vec::new())).is_empty());
}

#[test]
fn named_files_are_listed_without_reading() {
    let disk = Disk::new(&[]);
    assert_eq!(disk.names(&file("no/such/file")), ["no/such/file"]);
    assert_eq!(disk.names(&files(&["policy.csv", "model.conf"])), ["model.conf", "policy.csv"]);
    assert_eq!(disk.names(&files(&["x", "x"])), ["x", "x"]);
}

#[test]
fn missing_directory_is_an_error() {
    let disk = Disk::new(&[("p/a", "1")]);
    let error = disk.list(&directory("q", None)).unwrap_err();
    assert_eq!(error.message(), "bundle I/O on `q`: not a directory");
    assert_eq!(io_error(error), ("q".to_string(), "not a directory".to_string()));
    let source = BundleSource::Composite(vec![file("p/a"), directory("q", None)]);
    assert_eq!(io_error(disk.fingerprint(&source).unwrap_err()).0, "q");
}

#[test]
fn unreadable_directory_is_an_error() {
    let mut disk = Disk::new(&[("p/a/x", "1"), ("p/b/y", "2")]);
    disk.unreadable.push("p/b".to_string());
    let error = disk.list(&directory("p", None)).unwrap_err();
    assert_eq!(io_error(error), ("p/b".to_string(), "permission denied".to_string()));
}

#[test]
fn unreadable_entry_names_its_directory() {
    let mut disk = Disk::new(&[("p/a", "1"), ("p/b", "2")]);
    disk.unreadable.push("p/b".to_string());
    let error = disk.list(&directory("p", None)).unwrap_err();
    assert_eq!(io_error(error), ("p".to_string(), "stale handle".to_string()));
}

#[test]
fn first_error_met_counts() {
    let mut disk = Disk::new(&[("p/a/x", "1"), ("p/b", "2")]);
    disk.unreadable.push("p/a".to_string());
    disk.unreadable.push("p/b".to_string());
    assert_eq!(io_error(disk.list(&directory("p", None)).unwrap_err()).0, "p/a");
}

#[test]
fn first_unreadable_file_is_an_error() {
    let disk = Disk::new(&[("b", "1")]);
    let error = disk.fingerprint(&files(&["c", "b", "a"])).unwrap_err();
    assert_eq!(io_error(error), ("a".to_string(), "no such file".to_string()));
}

#[test]
fn empty_bundle_has_the_hash_of_nothing() {
    let disk = Disk::new(&[]);
    assert_eq!(
        disk.fingerprint(&files(&[])).unwrap(),
        "e3b0c44298fc1c149afbf4c8996fb92427ae41e4649b934ca495991b7852b855"
    );
}

#[test]
fn path_that_is_no_text_is_hashed_by_its_replacement() {
    let source = BundleSource::File(BundlePath::new(b"bad\xffname".to_vec()));
    let FingerprintStep::ReadFile(read) = source.fingerprint() else { panic!("no file asked for") };
    let FingerprintStep::Done(result) = read.supply(Ok(b"x".to_vec())) else { panic!("not done") };
    assert_eq!(
        result.unwrap(),
        "0e2ca1fa208ed8f0987d86582699e7b83cbac0c5148e9c56bbc156d90bcf0637"
    );
}

#[test]
fn content_that_moves_between_files_changes_the_fingerprint() {
    let source = files(&["a", "b"]);
    let whole = Disk::new(&[("a", "xy"), ("b", "z")]).fingerprint(&source).unwrap();
    let moved = Disk::new(&[("a", "x"), ("b", "yz")]).fingerprint(&source).unwrap();
    assert_ne!(whole, moved);
}

#[test]
fn content_that_runs_on_into_the_next_header_is_not_told_apart() {
    let source = files(&["a", "b"]);
    let one = Disk::new(&[("a", ""), ("b", "b\0")]).fingerprint(&source).unwrap();
    let other = Disk::new(&[("a", "b\0"), ("b", "")]).fingerprint(&source).unwrap();
    assert_eq!(one, other);
}

#[test]
fn added_and_renamed_files_change_the_fingerprint() {
    let source = directory("p", None);
    let before = Disk::new(&[("p/a", "1"), ("p/c", "2")]).fingerprint(&source).unwrap();
    let added = Disk::new(&[("p/a", "1"), ("p/b", ""), ("p/c", "2")]);
    assert_ne!(added.fingerprint(&source).unwrap(), before);
    let renamed = Disk::new(&[("p/b", "1"), ("p/c", "2")]);
    assert_ne!(renamed.fingerprint(&source).unwrap(), before);
}

#[test]
fn hexadecimal_is_lower_case() {
    assert_eq!(to_hex(&vec![0x00, 0x09, 0x0a, 0xbe, 0xef, 0xff]), "00090abeefff");
    assert_eq!(to_hex(&Vec::new()), "");
}

#[test]
fn start_stamps_what_was_there_before_the_parse() {
    let disk = RefCell::new(Disk::new(&[("b", "v1")]));
    let source = file("b");
    let parser = |s: &BundleSource| {
        let parsed = disk.borrow().parse_count_bytes(s);
        disk.borrow_mut().write("b", "v2, longer");
        parsed
    };
    let fingerprint = disk.borrow().fingerprint(&source);
    let started: Started<usize, Hook> =
        start(&source, fingerprint, &parser, Duration::from_millis(50)).unwrap();
    let watcher = started.watcher();
    let bundle = started.open().0;
    assert_eq!(*bundle.load(), 2);
    assert_eq!(
        bundle.fingerprint(),
        "2077990541483c81406a186c1e2a541ed458f08c0d662a170b54900df62e5fe3"
    );
    let (_, end) = disk.borrow().poll(watcher, WakeCause::Tick, &source, None, &bundle);
    assert!(matches!(end, PollEnd::Swapped { .. }));
    assert_eq!(*bundle.load(), 10);
}

#[test]
fn start_reports_a_parse_error_before_one_of_the_fingerprint() {
    let source = file("bundle.txt");
    let parser = |_: &BundleSource| -> Result<u32, ReloadError> {
        Err(ReloadError::Parse("nope".to_string()))
    };
    let unreadable = || Err(ReloadError::Io { path: "p".to_string(), error: "e".to_string() });
    for fingerprint in [Ok("fp".to_string()), unreadable()] {
        let started: Result<Started<u32, Hook>, ReloadError> =
            start(&source, fingerprint, &parser, Duration::from_millis(50));
        assert_eq!(started.err().unwrap().message(), "bundle parse failed: nope");
    }
    let started: Result<Started<u32, Hook>, ReloadError> = start_async(
        unreadable(),
        Err(ReloadError::Parse("nope".to_string())),
        Duration::from_millis(50),
    );
    assert_eq!(started.err().unwrap().message(), "bundle parse failed: nope");
}

#[test]
fn start_reports_a_fingerprint_error() {
    let disk = Disk::new(&[]);
    let source = file("bundle.txt");
    let opts: BundleReloadOptions<Hook> = BundleReloadOptions::new(Duration::from_millis(50));
    let started = start_async_with_options(disk.fingerprint(&source), Ok(7u32), opts);
    let error = started.err().unwrap();
    assert_eq!(error.message(), "bundle I/O on `bundle.txt`: no such file");
}

#[test]
fn start_keeps_the_options() {
    let hook: Hook = Box::new(|| None);
    let opts = BundleReloadOptions::new(Duration::from_millis(7)).with_pre_tick(hook);
    let started = start_async_with_options(Ok("fp".to_string()), Ok(7u32), opts).unwrap();
    let watcher = started.watcher();
    assert_eq!(watcher.last_fp(), "fp");
    let step: WatchStep<u32, Counted> = watcher.wake(WakeCause::Tick);
    assert!(matches!(step, WatchStep::Consult(_)));
    let (bundle, options) = started.open();
    assert_eq!(*bundle.load(), 7);
    assert_eq!(bundle.fingerprint(), "fp");
    assert_eq!(options.interval, Duration::from_millis(7));
    assert!(options.pre_tick.is_some());
    let plain: Started<u32, Hook> =
        start_async(Ok("fp".to_string()), Ok(1), Duration::from_millis(9)).unwrap();
    assert_eq!(plain.options.interval, Duration::from_millis(9));
    assert!(plain.options.pre_tick.is_none());
    let step: WatchStep<u32, Counted> = plain.watcher().wake(WakeCause::Tick);
    assert!(matches!(step, WatchStep::Fingerprint(_)));
}

#[test]
fn poll_once_parses_only_what_is_new() {
    let bundle: BundleReload<u32> = static_only(1, "old".into());
    let source = file("bundle.txt");
    let calls = Cell::new(0u32);
    let parser = |_: &BundleSource| -> Result<u32, ReloadError> {
        calls.set(calls.get() + 1);
        Ok(2)
    };
    let last = "old".to_string();
    let unchanged = poll_once(&source, &parser, &bundle, &last, Ok("old".to_string()));
    assert_eq!(unchanged.unwrap(), None);
    let failed = poll_once(
        &source,
        &parser,
        &bundle,
        &last,
        Err(ReloadError::Parse("unreadable".to_string())),
    );
    assert_eq!(failed.unwrap_err().message(), "bundle parse failed: unreadable");
    assert_eq!(calls.get(), 0);
    assert_eq!(*bundle.load(), 1);
    let changed = poll_once(&source, &parser, &bundle, &last, Ok("new".to_string()));
    assert_eq!(changed.unwrap(), Some("new".to_string()));
    assert_eq!(calls.get(), 1);
    assert_eq!(*bundle.load(), 2);
    assert_eq!(bundle.fingerprint(), "new");
}

#[test]
fn reload_once_gives_what_is_to_be_put_into_use() {
    let source = file("bundle.txt");
    let parser = |_: &BundleSource| -> Result<u32, ReloadError> { Ok(5) };
    let last = "old".to_string();
    let loaded = reload_once(&source, &parser, &last, Ok("new".to_string())).unwrap().unwrap();
    assert_eq!(*loaded.load(), 5);
    assert_eq!(loaded.fingerprint(), "new");
    assert!(reload_once(&source, &parser, &last, Ok("old".to_string())).unwrap().is_none());
}

#[test]
fn force_poll_says_whether_it_replaced_the_bundle() {
    let mut disk = Disk::new(&[("bundle.txt", "abc")]);
    let source = file("bundle.txt");
    let bundle = disk.start(&source, Duration::from_secs(5));
    let force = |disk: &Disk| {
        let poll = force_poll(&bundle);
        assert_eq!(*poll.last_fp(), bundle.fingerprint());
        let fingerprint = disk.fingerprint(&source);
        let parser = |s: &BundleSource| disk.parse_count_bytes(s);
        poll.fingerprinted(&source, &parser, fingerprint)
    };
    assert!(!force(&disk).unwrap());
    disk.write("bundle.txt", "abcd");
    assert!(force(&disk).unwrap());
    assert!(!force(&disk).unwrap());
    assert_eq!(*bundle.load(), 4);
    disk.unreadable.push("bundle.txt".to_string());
    assert!(force(&disk).is_err());
    assert_eq!(*bundle.load(), 4);
}

#[test]
fn forced_poll_compares_with_the_bundle_in_use() {
    let bundle: BundleReload<u32> = static_only(1, "first".into());
    bundle.replace(2, "second".into());
    let parser = |_: &BundleSource| -> Result<u32, ReloadError> { Ok(3) };
    let source = file("bundle.txt");
    let swapped = force_poll(&bundle).fingerprinted(&source, &parser, Ok("second".to_string()));
    assert!(!swapped.unwrap());
    assert_eq!(*bundle.load(), 2);
    let swapped = force_poll(&bundle).fingerprinted(&source, &parser, Ok("first".to_string()));
    assert!(swapped.unwrap());
    assert_eq!(*bundle.load(), 3);
    assert_eq!(bundle.fingerprint(), "first");
}

#[test]
fn clone_of_a_source_is_the_same_source() {
    let source = BundleSource::Composite(vec![
        file("a"),
        files(&["b"]),
        directory("d", Some("cedar")),
        directory("e", None),
        BundleSource::Composite(vec![BundleSource::Composite(Vec::new()), file("c")]),
    ]);
    assert_eq!(format!("{:?}", source.clone()), format!("{source:?}"));
}

#[test]
fn composites_join_nest_and_permute_alike() {
    let disk = Disk::new(&[("p/b", "1"), ("p/d", "2"), ("q/a", "3"), ("q/e", "4")]);
    let expected = ["c", "p/b", "p/d", "q/a", "q/e"];
    let p = || directory("p", None);
    let q = || directory("q", None);
    let compose = BundleSource::Composite;
    assert_eq!(disk.names(&compose(vec![p(), q(), file("c")])), expected);
    assert_eq!(disk.names(&compose(vec![file("c"), q(), p()])), expected);
    let nested = compose(vec![compose(vec![p()]), compose(vec![q(), file("c")])]);
    assert_eq!(disk.names(&nested), expected);
    assert_eq!(disk.names(&compose(vec![p()])), disk.names(&p()));
    assert!(disk.names(&compose(Vec::new())).is_empty());
}

#[test]
fn hook_is_asked_once_per_poll_and_no_two_permits_live() {
    let mut disk = Disk::new(&[("bundle.txt", "abc")]);
    let source = file("bundle.txt");
    let asked: Permit = Rc::new(Cell::new(0));
    let dropped: Permit = Rc::new(Cell::new(0));
    let (a, d) = (Rc::clone(&asked), Rc::clone(&dropped));
    let hook: Hook = Box::new(move || {
        assert_eq!(a.get(), d.get());
        a.set(a.get() + 1);
        Some(Counted(Rc::clone(&d)))
    });
    let bundle: BundleReload<usize> = disk.start(&source, Duration::from_millis(40));
    let mut watcher = Watcher::new(bundle.fingerprint(), true);
    for (round, content) in ["abc", "abcd", "abcd", "abcde"].iter().enumerate() {
        disk.write("bundle.txt", content);
        let (next, _) = disk.poll(watcher, WakeCause::Tick, &source, Some(&hook), &bundle);
        watcher = next;
        assert_eq!(asked.get(), round + 1);
        assert_eq!(dropped.get(), round + 1);
    }
    assert_eq!(*bundle.load(), 5);
}

#[test]
fn watcher_reloads_like_one_reload() {
    let source = file("bundle.txt");
    let last = "old".to_string();
    for fingerprint in ["old", "new"] {
        for good in [true, false] {
            let parse = || {
                if good {
                    Ok(5u32)
                } else {
                    Err(ReloadError::Parse("nope".to_string()))
                }
            };
            let once = reload_once(
                &source,
                &|_: &BundleSource| parse(),
                &last,
                Ok(fingerprint.to_string()),
            );
            let bundle: BundleReload<u32> = static_only(1, last.clone());
            let mut step: WatchStep<u32, ()> =
                Watcher::new(last.clone(), false).wake(WakeCause::Tick);
            let end = loop {
                step = match step {
                    WatchStep::Consult(gate) => gate.answer(None),
                    WatchStep::Fingerprint(poll) => poll.fingerprinted(Ok(fingerprint.to_string())),
                    WatchStep::Parse(reload) => reload.parsed(parse()),
                    WatchStep::Swap(swap) => swap.publish(&bundle),
                    WatchStep::Idle(_, end) => break end,
                };
            };
            match once {
                Ok(Some(loaded)) => {
                    assert!(matches!(end, PollEnd::Swapped { .. }));
                    assert_eq!(*bundle.load(), *loaded.load());
                    assert_eq!(bundle.fingerprint(), loaded.fingerprint());
                }
                Ok(None) => assert!(matches!(end, PollEnd::Unchanged)),
                Err(_) => assert!(matches!(end, PollEnd::ParseFailed { .. })),
            }
        }
    }
}
