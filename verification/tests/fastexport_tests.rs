use fastexport_jsonl::fastexport;
use fastexport_jsonl::fastexport::ParseOptions;
use fastexport_jsonl::json;
use fastexport_jsonl::model::Event;

fn round_trip(stream: &str) -> Vec<u8> {
    let opts = ParseOptions { lenient: false };
    let events = fastexport::parse(stream.as_bytes(), &opts).expect("stream should parse");

    let mut jsonl = String::new();
    for event in &events {
        jsonl.push_str(&event.to_json().to_compact_string());
        jsonl.push('\n');
    }

    let mut rebuilt = Vec::new();
    for line in jsonl.lines() {
        let value = json::parse(line).expect("jsonl line should parse");
        rebuilt.push(Event::from_json(&value, false).expect("event should reparse"));
    }

    fastexport_jsonl::fastexport::write(&rebuilt)
}

#[test]
fn round_trips_blob_commit_merge_reset_done() {
    let stream = "blob\n\
mark :1\n\
data 5\n\
hello\n\
commit refs/heads/main\n\
mark :2\n\
author A U Thor <author@example.com> 1112911993 -0700\n\
committer C O Mitter <committer@example.com> 1112911993 -0700\n\
data 10\n\
first work\n\
M 100644 :1 file.txt\n\
\n\
commit refs/heads/main\n\
mark :3\n\
committer C O Mitter <committer@example.com> 1112912000 -0700\n\
data 11\n\
second work\n\
from :2\n\
merge :2\n\
M 100755 inline exec.sh\n\
data 6\n\
binary\n\
D old.txt\n\
\n\
reset refs/heads/main\n\
from :3\n\
done\n";

    assert_eq!(round_trip(stream), stream.as_bytes());
}

#[test]
fn round_trips_tag_and_notemodify() {
    let stream = "blob\n\
mark :1\n\
data 5\n\
hello\n\
commit refs/heads/main\n\
mark :2\n\
committer C O Mitter <committer@example.com> 1112911993 -0700\n\
data 10\n\
first work\n\
M 100644 :1 file.txt\n\
\n\
commit refs/notes/commits\n\
committer C O Mitter <committer@example.com> 1112912000 -0700\n\
data 8\n\
add note\n\
N inline :2\n\
data 6\n\
a note\n\
\n\
tag v1.0\n\
mark :3\n\
from :2\n\
tagger C O Mitter <committer@example.com> 1112912100 -0700\n\
data 13\n\
release notes\n\
done\n";

    assert_eq!(round_trip(stream), stream.as_bytes());
}

#[test]
fn round_trips_tag_without_tagger_or_mark() {
    let stream = "commit refs/heads/main\n\
committer C O Mitter <committer@example.com> 1112911993 -0700\n\
data 4\n\
fix!\n\
M 100644 da39a3ee5e6b4b0d3255bfef95601890afd80709 file.txt\n\
\n\
tag v2.0\n\
from refs/heads/main\n\
data 0\n\
\n\
done\n";

    assert_eq!(round_trip(stream), stream.as_bytes());
}

#[test]
fn round_trips_minimal_commit_with_sha1_dataref() {
    let stream = "commit refs/heads/main\n\
committer C O Mitter <committer@example.com> 1112911993 -0700\n\
data 4\n\
fix!\n\
M 100644 da39a3ee5e6b4b0d3255bfef95601890afd80709 file.txt\n\
\n\
done\n";

    assert_eq!(round_trip(stream), stream.as_bytes());
}

#[test]
fn parses_delimited_data_and_writes_it_back_as_exact_count() {
    let stream = "blob\n\
mark :1\n\
data <<BLOBEOF\n\
hello\n\
world\n\
BLOBEOF\n\
commit refs/heads/main\n\
committer C O Mitter <committer@example.com> 1112911993 -0700\n\
data <<MSGEOF\n\
a message\n\
MSGEOF\n\
M 100644 :1 file.txt\n\
\n\
done\n";

    let expected = "blob\n\
mark :1\n\
data 12\n\
hello\n\
world\n\
\n\
commit refs/heads/main\n\
committer C O Mitter <committer@example.com> 1112911993 -0700\n\
data 10\n\
a message\n\
\n\
M 100644 :1 file.txt\n\
\n\
done\n";

    let opts = ParseOptions { lenient: false };
    let events = fastexport::parse(stream.as_bytes(), &opts).expect("stream should parse");
    assert_eq!(fastexport_jsonl::fastexport::write(&events), expected.as_bytes());
}

#[test]
fn delimiter_line_containing_delimiter_as_substring_is_not_a_match() {
    // A raw line of "BLOBEOFX" must not be mistaken for the "BLOBEOF"
    // terminator; only an exact line match ends the block.
    let stream = "blob\n\
data <<BLOBEOF\n\
BLOBEOFX\n\
BLOBEOF\n";

    let opts = ParseOptions { lenient: false };
    let events = fastexport::parse(stream.as_bytes(), &opts).expect("stream should parse");
    match &events[0] {
        Event::Blob(blob) => assert_eq!(blob.data, b"BLOBEOFX\n"),
        _ => panic!("expected a blob event"),
    }
}

#[test]
fn round_trips_filecopy_filerename_and_deleteall() {
    let stream = "blob\n\
mark :1\n\
data 5\n\
hello\n\
commit refs/heads/main\n\
committer C O Mitter <committer@example.com> 1112911993 -0700\n\
data 10\n\
first work\n\
M 100644 :1 \"file with space.txt\"\n\
\n\
commit refs/heads/main\n\
committer C O Mitter <committer@example.com> 1112912000 -0700\n\
data 11\n\
second work\n\
C \"file with space.txt\" copy.txt\n\
R copy.txt renamed.txt\n\
deleteall\n\
\n\
done\n";

    assert_eq!(round_trip(stream), stream.as_bytes());
}

#[test]
fn round_trips_ls_and_checkpoint() {
    let stream = "blob\n\
mark :1\n\
data 5\n\
hello\n\
commit refs/heads/main\n\
mark :2\n\
committer C O Mitter <committer@example.com> 1112911993 -0700\n\
data 10\n\
first work\n\
M 100644 :1 file.txt\n\
ls file.txt\n\
\n\
checkpoint\n\
ls :2 file.txt\n\
ls da39a3ee5e6b4b0d3255bfef95601890afd80709 other.txt\n\
done\n";

    assert_eq!(round_trip(stream), stream.as_bytes());
}

#[test]
fn unterminated_delimited_data_is_a_strict_error() {
    let stream = "blob\ndata <<EOF\nno terminator here\n";
    let opts = ParseOptions { lenient: false };
    assert!(fastexport::parse(stream.as_bytes(), &opts).is_err());
}
