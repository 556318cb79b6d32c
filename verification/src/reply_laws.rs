//! What the replies promise: each number in them under the name it belongs to.

use vstd::prelude::*;

use crate::browse;
use crate::cleanup;
use crate::cleanup::{ItemView, OutcomeView};
use crate::cli;
use crate::index;
use crate::index::{IndexView, Mode};
use crate::json;
use crate::json::Json;
use crate::order;
use crate::path;
use crate::removal;
use crate::report;
use crate::report::ListedView;
use crate::rules;
use crate::scan;
use crate::scan::TreeView;
use crate::tool_calls;
use crate::util;

verus! {

/// Whether the member `key` of an object is `x`.
pub open spec fn holds(j: Json, key: Seq<char>, x: Json) -> bool {
    json::field(j, key) == Some(x)
}

/// Whether an object tells `n` under `bytes` and in words under `human`.
pub open spec fn tells(j: Json, bytes: Seq<char>, human: Seq<char>, n: u64) -> bool {
    holds(j, bytes, Json::Int(n as int)) && holds(j, human, Json::Str(util::human_size(n)))
}

/// The numbers that the first `k` of the rows hold under `key`, added up.
pub open spec fn row_sum(rows: Seq<Json>, key: Seq<char>, k: nat) -> int
    decreases k,
{
    if k == 0 {
        0
    } else {
        row_sum(rows, key, (k - 1) as nat) + match json::field(rows[k - 1], key) {
            Some(Json::Int(n)) => n,
            _ => 0,
        }
    }
}

/// The same over those of the rows that hold `x` under `only`.
pub open spec fn row_sum_where(
    rows: Seq<Json>,
    key: Seq<char>,
    only: Seq<char>,
    x: Json,
    k: nat,
) -> int
    decreases k,
{
    if k == 0 {
        0
    } else {
        row_sum_where(rows, key, only, x, (k - 1) as nat) + match json::field(rows[k - 1], key) {
            Some(Json::Int(n)) if holds(rows[k - 1], only, x) => n,
            _ => 0,
        }
    }
}

/// The lengths of the names of members, and their first, third and last letters.
#[verifier::spinoff_prover]
proof fn lemma_keys()
    ensures
        "path"@.len() == 4 && "path"@[0] == 'p' && "path"@[2] == 't' && "path"@.last() == 'h',
        "in_use"@.len() == 6 && "in_use"@[0] == 'i' && "in_use"@[2] == '_'
            && "in_use"@.last() == 'e',
        "bytes"@.len() == 5 && "bytes"@[0] == 'b' && "bytes"@[2] == 't' && "bytes"@.last() == 's',
        "human"@.len() == 5 && "human"@[0] == 'h' && "human"@[2] == 'm' && "human"@.last() == 'n',
        "apparent_bytes"@.len() == 14 && "apparent_bytes"@[0] == 'a' && "apparent_bytes"@[2] == 'p'
            && "apparent_bytes"@.last() == 's',
        "apparent_human"@.len() == 14 && "apparent_human"@[0] == 'a' && "apparent_human"@[2] == 'p'
            && "apparent_human"@.last() == 'n',
        "mostly_shared"@.len() == 13 && "mostly_shared"@[0] == 'm' && "mostly_shared"@[2] == 's'
            && "mostly_shared"@.last() == 'd',
        "files"@.len() == 5 && "files"@[0] == 'f' && "files"@[2] == 'l' && "files"@.last() == 's',
        "category"@.len() == 8 && "category"@[0] == 'c' && "category"@[2] == 't'
            && "category"@.last() == 'y',
        "note"@.len() == 4 && "note"@[0] == 'n' && "note"@[2] == 't' && "note"@.last() == 'e',
        "index"@.len() == 5 && "index"@[0] == 'i' && "index"@[2] == 'd' && "index"@.last() == 'x',
        "reclaimable_bytes"@.len() == 17 && "reclaimable_bytes"@[0] == 'r'
            && "reclaimable_bytes"@[2] == 'c' && "reclaimable_bytes"@.last() == 's',
        "reclaimable_human"@.len() == 17 && "reclaimable_human"@[0] == 'r'
            && "reclaimable_human"@[2] == 'c' && "reclaimable_human"@.last() == 'n',
        "size_note"@.len() == 9 && "size_note"@[0] == 's' && "size_note"@[2] == 'z'
            && "size_note"@.last() == 'e',
        "matches"@.len() == 7 && "matches"@[0] == 'm' && "matches"@[2] == 't'
            && "matches"@.last() == 's',
        "shown"@.len() == 5 && "shown"@[0] == 's' && "shown"@[2] == 'o' && "shown"@.last() == 'n',
        "caches"@.len() == 6 && "caches"@[0] == 'c' && "caches"@[2] == 'c'
            && "caches"@.last() == 's',
        "next_step"@.len() == 9 && "next_step"@[0] == 'n' && "next_step"@[2] == 'x'
            && "next_step"@.last() == 'p',
        "is_dir"@.len() == 6 && "is_dir"@[0] == 'i' && "is_dir"@[2] == '_'
            && "is_dir"@.last() == 'r',
        "total_bytes"@.len() == 11 && "total_bytes"@[0] == 't' && "total_bytes"@[2] == 't'
            && "total_bytes"@.last() == 's',
        "total_human"@.len() == 11 && "total_human"@[0] == 't' && "total_human"@[2] == 't'
            && "total_human"@.last() == 'n',
        "entries"@.len() == 7 && "entries"@[0] == 'e' && "entries"@[2] == 't'
            && "entries"@.last() == 's',
        "name"@.len() == 4 && "name"@[0] == 'n' && "name"@[2] == 'm' && "name"@.last() == 'e',
        "summary_row"@.len() == 11 && "summary_row"@[0] == 's' && "summary_row"@[2] == 'm'
            && "summary_row"@.last() == 'w',
        "children"@.len() == 8 && "children"@[0] == 'c' && "children"@[2] == 'i'
            && "children"@.last() == 'n',
        "status"@.len() == 6 && "status"@[0] == 's' && "status"@[2] == 'a'
            && "status"@.last() == 's',
        "root"@.len() == 4 && "root"@[0] == 'r' && "root"@[2] == 'o' && "root"@.last() == 't',
        "cache_dirs"@.len() == 10 && "cache_dirs"@[0] == 'c' && "cache_dirs"@[2] == 'c'
            && "cache_dirs"@.last() == 's',
        "seconds"@.len() == 7 && "seconds"@[0] == 's' && "seconds"@[2] == 'c'
            && "seconds"@.last() == 's',
        "mode"@.len() == 4 && "mode"@[0] == 'm' && "mode"@[2] == 'd' && "mode"@.last() == 'e',
        "why"@.len() == 3 && "why"@[0] == 'w' && "why"@[2] == 'y' && "why"@.last() == 'y',
        "changed_dirs"@.len() == 12 && "changed_dirs"@[0] == 'c' && "changed_dirs"@[2] == 'a'
            && "changed_dirs"@.last() == 's',
        "unreadable_dirs"@.len() == 15 && "unreadable_dirs"@[0] == 'u'
            && "unreadable_dirs"@[2] == 'r' && "unreadable_dirs"@.last() == 's',
        "index_saved"@.len() == 11 && "index_saved"@[0] == 'i' && "index_saved"@[2] == 'd'
            && "index_saved"@.last() == 'd',
        "scanned_at"@.len() == 10 && "scanned_at"@[0] == 's' && "scanned_at"@[2] == 'a'
            && "scanned_at"@.last() == 't',
        "age_human"@.len() == 9 && "age_human"@[0] == 'a' && "age_human"@[2] == 'e'
            && "age_human"@.last() == 'n',
        "volume_total_human"@.len() == 18 && "volume_total_human"@[0] == 'v'
            && "volume_total_human"@[2] == 'l' && "volume_total_human"@.last() == 'n',
        "volume_free_human"@.len() == 17 && "volume_free_human"@[0] == 'v'
            && "volume_free_human"@[2] == 'l' && "volume_free_human"@.last() == 'n',
        "reason"@.len() == 6 && "reason"@[0] == 'r' && "reason"@[2] == 'a'
            && "reason"@.last() == 'n',
        "confirmed"@.len() == 9 && "confirmed"@[0] == 'c' && "confirmed"@[2] == 'n'
            && "confirmed"@.last() == 'd',
        "would_trash"@.len() == 11 && "would_trash"@[0] == 'w' && "would_trash"@[2] == 'u'
            && "would_trash"@.last() == 'h',
        "would_free_bytes"@.len() == 16 && "would_free_bytes"@[0] == 'w'
            && "would_free_bytes"@[2] == 'u' && "would_free_bytes"@.last() == 's',
        "would_free_human"@.len() == 16 && "would_free_human"@[0] == 'w'
            && "would_free_human"@[2] == 'u' && "would_free_human"@.last() == 'n',
        "rejected"@.len() == 8 && "rejected"@[0] == 'r' && "rejected"@[2] == 'j'
            && "rejected"@.last() == 'd',
        "trashed"@.len() == 7 && "trashed"@[0] == 't' && "trashed"@[2] == 'a'
            && "trashed"@.last() == 'd',
        "error"@.len() == 5 && "error"@[0] == 'e' && "error"@[2] == 'r' && "error"@.last() == 'r',
        "trashed_count"@.len() == 13 && "trashed_count"@[0] == 't' && "trashed_count"@[2] == 'a'
            && "trashed_count"@.last() == 't',
        "freed_bytes"@.len() == 11 && "freed_bytes"@[0] == 'f' && "freed_bytes"@[2] == 'e'
            && "freed_bytes"@.last() == 's',
        "freed_human"@.len() == 11 && "freed_human"@[0] == 'f' && "freed_human"@[2] == 'e'
            && "freed_human"@.last() == 'n',
        "results"@.len() == 7 && "results"@[0] == 'r' && "results"@[2] == 's'
            && "results"@.last() == 's',
        "shared"@.len() == 6 && "shared"@[0] == 's' && "shared"@[2] == 'a'
            && "shared"@.last() == 'd',
        "in_use_bytes"@.len() == 12 && "in_use_bytes"@[0] == 'i' && "in_use_bytes"@[2] == '_'
            && "in_use_bytes"@.last() == 's',
        "in_use_human"@.len() == 12 && "in_use_human"@[0] == 'i' && "in_use_human"@[2] == '_'
            && "in_use_human"@.last() == 'n',
        "largest"@.len() == 7 && "largest"@[0] == 'l' && "largest"@[2] == 'r'
            && "largest"@.last() == 't',
        "age_seconds"@.len() == 11 && "age_seconds"@[0] == 'a' && "age_seconds"@[2] == 'e'
            && "age_seconds"@.last() == 's',
        "unshared_bytes"@.len() == 14 && "unshared_bytes"@[0] == 'u' && "unshared_bytes"@[2] == 's'
            && "unshared_bytes"@.last() == 's',
        "unshared_human"@.len() == 14 && "unshared_human"@[0] == 'u' && "unshared_human"@[2] == 's'
            && "unshared_human"@.last() == 'n',
        "failed_count"@.len() == 12 && "failed_count"@[0] == 'f' && "failed_count"@[2] == 'i'
            && "failed_count"@.last() == 't',
        "files_so_far"@.len() == 12 && "files_so_far"@[0] == 'f' && "files_so_far"@[2] == 'l'
            && "files_so_far"@.last() == 'r',
        "bytes_so_far"@.len() == 12 && "bytes_so_far"@[0] == 'b' && "bytes_so_far"@[2] == 't'
            && "bytes_so_far"@.last() == 'r',
        "bytes_so_far_human"@.len() == 18 && "bytes_so_far_human"@[0] == 'b'
            && "bytes_so_far_human"@[2] == 't' && "bytes_so_far_human"@.last() == 'n',
        "elapsed_seconds"@.len() == 15 && "elapsed_seconds"@[0] == 'e'
            && "elapsed_seconds"@[2] == 'a' && "elapsed_seconds"@.last() == 's',
        "hint"@.len() == 4 && "hint"@[0] == 'h' && "hint"@[2] == 'n' && "hint"@.last() == 't',
{
    assert("path"@.len() == 4 && "path"@[0] == 'p' && "path"@[2] == 't'
        && "path"@.last() == 'h') by {
        reveal_strlit("path");
    }
    assert("in_use"@.len() == 6 && "in_use"@[0] == 'i' && "in_use"@[2] == '_'
        && "in_use"@.last() == 'e') by {
        reveal_strlit("in_use");
    }
    assert("bytes"@.len() == 5 && "bytes"@[0] == 'b' && "bytes"@[2] == 't'
        && "bytes"@.last() == 's') by {
        reveal_strlit("bytes");
    }
    assert("human"@.len() == 5 && "human"@[0] == 'h' && "human"@[2] == 'm'
        && "human"@.last() == 'n') by {
        reveal_strlit("human");
    }
    assert("apparent_bytes"@.len() == 14 && "apparent_bytes"@[0] == 'a'
        && "apparent_bytes"@[2] == 'p' && "apparent_bytes"@.last() == 's') by {
        reveal_strlit("apparent_bytes");
    }
    assert("apparent_human"@.len() == 14 && "apparent_human"@[0] == 'a'
        && "apparent_human"@[2] == 'p' && "apparent_human"@.last() == 'n') by {
        reveal_strlit("apparent_human");
    }
    assert("mostly_shared"@.len() == 13 && "mostly_shared"@[0] == 'm' && "mostly_shared"@[2] == 's'
        && "mostly_shared"@.last() == 'd') by {
        reveal_strlit("mostly_shared");
    }
    assert("files"@.len() == 5 && "files"@[0] == 'f' && "files"@[2] == 'l'
        && "files"@.last() == 's') by {
        reveal_strlit("files");
    }
    assert("category"@.len() == 8 && "category"@[0] == 'c' && "category"@[2] == 't'
        && "category"@.last() == 'y') by {
        reveal_strlit("category");
    }
    assert("note"@.len() == 4 && "note"@[0] == 'n' && "note"@[2] == 't'
        && "note"@.last() == 'e') by {
        reveal_strlit("note");
    }
    assert("index"@.len() == 5 && "index"@[0] == 'i' && "index"@[2] == 'd'
        && "index"@.last() == 'x') by {
        reveal_strlit("index");
    }
    assert("reclaimable_bytes"@.len() == 17 && "reclaimable_bytes"@[0] == 'r'
        && "reclaimable_bytes"@[2] == 'c' && "reclaimable_bytes"@.last() == 's') by {
        reveal_strlit("reclaimable_bytes");
    }
    assert("reclaimable_human"@.len() == 17 && "reclaimable_human"@[0] == 'r'
        && "reclaimable_human"@[2] == 'c' && "reclaimable_human"@.last() == 'n') by {
        reveal_strlit("reclaimable_human");
    }
    assert("size_note"@.len() == 9 && "size_note"@[0] == 's' && "size_note"@[2] == 'z'
        && "size_note"@.last() == 'e') by {
        reveal_strlit("size_note");
    }
    assert("matches"@.len() == 7 && "matches"@[0] == 'm' && "matches"@[2] == 't'
        && "matches"@.last() == 's') by {
        reveal_strlit("matches");
    }
    assert("shown"@.len() == 5 && "shown"@[0] == 's' && "shown"@[2] == 'o'
        && "shown"@.last() == 'n') by {
        reveal_strlit("shown");
    }
    assert("caches"@.len() == 6 && "caches"@[0] == 'c' && "caches"@[2] == 'c'
        && "caches"@.last() == 's') by {
        reveal_strlit("caches");
    }
    assert("next_step"@.len() == 9 && "next_step"@[0] == 'n' && "next_step"@[2] == 'x'
        && "next_step"@.last() == 'p') by {
        reveal_strlit("next_step");
    }
    assert("is_dir"@.len() == 6 && "is_dir"@[0] == 'i' && "is_dir"@[2] == '_'
        && "is_dir"@.last() == 'r') by {
        reveal_strlit("is_dir");
    }
    assert("total_bytes"@.len() == 11 && "total_bytes"@[0] == 't' && "total_bytes"@[2] == 't'
        && "total_bytes"@.last() == 's') by {
        reveal_strlit("total_bytes");
    }
    assert("total_human"@.len() == 11 && "total_human"@[0] == 't' && "total_human"@[2] == 't'
        && "total_human"@.last() == 'n') by {
        reveal_strlit("total_human");
    }
    assert("entries"@.len() == 7 && "entries"@[0] == 'e' && "entries"@[2] == 't'
        && "entries"@.last() == 's') by {
        reveal_strlit("entries");
    }
    assert("name"@.len() == 4 && "name"@[0] == 'n' && "name"@[2] == 'm'
        && "name"@.last() == 'e') by {
        reveal_strlit("name");
    }
    assert("summary_row"@.len() == 11 && "summary_row"@[0] == 's' && "summary_row"@[2] == 'm'
        && "summary_row"@.last() == 'w') by {
        reveal_strlit("summary_row");
    }
    assert("children"@.len() == 8 && "children"@[0] == 'c' && "children"@[2] == 'i'
        && "children"@.last() == 'n') by {
        reveal_strlit("children");
    }
    assert("status"@.len() == 6 && "status"@[0] == 's' && "status"@[2] == 'a'
        && "status"@.last() == 's') by {
        reveal_strlit("status");
    }
    assert("root"@.len() == 4 && "root"@[0] == 'r' && "root"@[2] == 'o'
        && "root"@.last() == 't') by {
        reveal_strlit("root");
    }
    assert("cache_dirs"@.len() == 10 && "cache_dirs"@[0] == 'c' && "cache_dirs"@[2] == 'c'
        && "cache_dirs"@.last() == 's') by {
        reveal_strlit("cache_dirs");
    }
    assert("seconds"@.len() == 7 && "seconds"@[0] == 's' && "seconds"@[2] == 'c'
        && "seconds"@.last() == 's') by {
        reveal_strlit("seconds");
    }
    assert("mode"@.len() == 4 && "mode"@[0] == 'm' && "mode"@[2] == 'd'
        && "mode"@.last() == 'e') by {
        reveal_strlit("mode");
    }
    assert("why"@.len() == 3 && "why"@[0] == 'w' && "why"@[2] == 'y' && "why"@.last() == 'y') by {
        reveal_strlit("why");
    }
    assert("changed_dirs"@.len() == 12 && "changed_dirs"@[0] == 'c' && "changed_dirs"@[2] == 'a'
        && "changed_dirs"@.last() == 's') by {
        reveal_strlit("changed_dirs");
    }
    assert("unreadable_dirs"@.len() == 15 && "unreadable_dirs"@[0] == 'u'
        && "unreadable_dirs"@[2] == 'r' && "unreadable_dirs"@.last() == 's') by {
        reveal_strlit("unreadable_dirs");
    }
    assert("index_saved"@.len() == 11 && "index_saved"@[0] == 'i' && "index_saved"@[2] == 'd'
        && "index_saved"@.last() == 'd') by {
        reveal_strlit("index_saved");
    }
    assert("scanned_at"@.len() == 10 && "scanned_at"@[0] == 's' && "scanned_at"@[2] == 'a'
        && "scanned_at"@.last() == 't') by {
        reveal_strlit("scanned_at");
    }
    assert("age_human"@.len() == 9 && "age_human"@[0] == 'a' && "age_human"@[2] == 'e'
        && "age_human"@.last() == 'n') by {
        reveal_strlit("age_human");
    }
    assert("volume_total_human"@.len() == 18 && "volume_total_human"@[0] == 'v'
        && "volume_total_human"@[2] == 'l' && "volume_total_human"@.last() == 'n') by {
        reveal_strlit("volume_total_human");
    }
    assert("volume_free_human"@.len() == 17 && "volume_free_human"@[0] == 'v'
        && "volume_free_human"@[2] == 'l' && "volume_free_human"@.last() == 'n') by {
        reveal_strlit("volume_free_human");
    }
    assert("reason"@.len() == 6 && "reason"@[0] == 'r' && "reason"@[2] == 'a'
        && "reason"@.last() == 'n') by {
        reveal_strlit("reason");
    }
    assert("confirmed"@.len() == 9 && "confirmed"@[0] == 'c' && "confirmed"@[2] == 'n'
        && "confirmed"@.last() == 'd') by {
        reveal_strlit("confirmed");
    }
    assert("would_trash"@.len() == 11 && "would_trash"@[0] == 'w' && "would_trash"@[2] == 'u'
        && "would_trash"@.last() == 'h') by {
        reveal_strlit("would_trash");
    }
    assert("would_free_bytes"@.len() == 16 && "would_free_bytes"@[0] == 'w'
        && "would_free_bytes"@[2] == 'u' && "would_free_bytes"@.last() == 's') by {
        reveal_strlit("would_free_bytes");
    }
    assert("would_free_human"@.len() == 16 && "would_free_human"@[0] == 'w'
        && "would_free_human"@[2] == 'u' && "would_free_human"@.last() == 'n') by {
        reveal_strlit("would_free_human");
    }
    assert("rejected"@.len() == 8 && "rejected"@[0] == 'r' && "rejected"@[2] == 'j'
        && "rejected"@.last() == 'd') by {
        reveal_strlit("rejected");
    }
    assert("trashed"@.len() == 7 && "trashed"@[0] == 't' && "trashed"@[2] == 'a'
        && "trashed"@.last() == 'd') by {
        reveal_strlit("trashed");
    }
    assert("error"@.len() == 5 && "error"@[0] == 'e' && "error"@[2] == 'r'
        && "error"@.last() == 'r') by {
        reveal_strlit("error");
    }
    assert("trashed_count"@.len() == 13 && "trashed_count"@[0] == 't' && "trashed_count"@[2] == 'a'
        && "trashed_count"@.last() == 't') by {
        reveal_strlit("trashed_count");
    }
    assert("freed_bytes"@.len() == 11 && "freed_bytes"@[0] == 'f' && "freed_bytes"@[2] == 'e'
        && "freed_bytes"@.last() == 's') by {
        reveal_strlit("freed_bytes");
    }
    assert("freed_human"@.len() == 11 && "freed_human"@[0] == 'f' && "freed_human"@[2] == 'e'
        && "freed_human"@.last() == 'n') by {
        reveal_strlit("freed_human");
    }
    assert("results"@.len() == 7 && "results"@[0] == 'r' && "results"@[2] == 's'
        && "results"@.last() == 's') by {
        reveal_strlit("results");
    }
    assert("shared"@.len() == 6 && "shared"@[0] == 's' && "shared"@[2] == 'a'
        && "shared"@.last() == 'd') by {
        reveal_strlit("shared");
    }
    assert("in_use_bytes"@.len() == 12 && "in_use_bytes"@[0] == 'i' && "in_use_bytes"@[2] == '_'
        && "in_use_bytes"@.last() == 's') by {
        reveal_strlit("in_use_bytes");
    }
    assert("in_use_human"@.len() == 12 && "in_use_human"@[0] == 'i' && "in_use_human"@[2] == '_'
        && "in_use_human"@.last() == 'n') by {
        reveal_strlit("in_use_human");
    }
    assert("largest"@.len() == 7 && "largest"@[0] == 'l' && "largest"@[2] == 'r'
        && "largest"@.last() == 't') by {
        reveal_strlit("largest");
    }
    assert("age_seconds"@.len() == 11 && "age_seconds"@[0] == 'a' && "age_seconds"@[2] == 'e'
        && "age_seconds"@.last() == 's') by {
        reveal_strlit("age_seconds");
    }
    assert("unshared_bytes"@.len() == 14 && "unshared_bytes"@[0] == 'u'
        && "unshared_bytes"@[2] == 's' && "unshared_bytes"@.last() == 's') by {
        reveal_strlit("unshared_bytes");
    }
    assert("unshared_human"@.len() == 14 && "unshared_human"@[0] == 'u'
        && "unshared_human"@[2] == 's' && "unshared_human"@.last() == 'n') by {
        reveal_strlit("unshared_human");
    }
    assert("failed_count"@.len() == 12 && "failed_count"@[0] == 'f' && "failed_count"@[2] == 'i'
        && "failed_count"@.last() == 't') by {
        reveal_strlit("failed_count");
    }
    assert("files_so_far"@.len() == 12 && "files_so_far"@[0] == 'f' && "files_so_far"@[2] == 'l'
        && "files_so_far"@.last() == 'r') by {
        reveal_strlit("files_so_far");
    }
    assert("bytes_so_far"@.len() == 12 && "bytes_so_far"@[0] == 'b' && "bytes_so_far"@[2] == 't'
        && "bytes_so_far"@.last() == 'r') by {
        reveal_strlit("bytes_so_far");
    }
    assert("bytes_so_far_human"@.len() == 18 && "bytes_so_far_human"@[0] == 'b'
        && "bytes_so_far_human"@[2] == 't' && "bytes_so_far_human"@.last() == 'n') by {
        reveal_strlit("bytes_so_far_human");
    }
    assert("elapsed_seconds"@.len() == 15 && "elapsed_seconds"@[0] == 'e'
        && "elapsed_seconds"@[2] == 'a' && "elapsed_seconds"@.last() == 's') by {
        reveal_strlit("elapsed_seconds");
    }
    assert("hint"@.len() == 4 && "hint"@[0] == 'h' && "hint"@[2] == 'n'
        && "hint"@.last() == 't') by {
        reveal_strlit("hint");
    }
}

/// A row of a listing of caches tells, under `bytes`, what deleting the directory frees
/// and, under `apparent_bytes`, what it seems to take; it is told to be in use just where
/// it is.
pub open spec fn tells_cache(j: Json, l: ListedView) -> bool {
    &&& holds(j, "path"@, Json::Str(l.hit.path))
    &&& tells(j, "bytes"@, "human"@, l.hit.private)
    &&& tells(j, "apparent_bytes"@, "apparent_human"@, l.hit.size)
    &&& l.in_use is None ==> holds(j, "in_use"@, Json::Null)
    &&& l.in_use matches Some(u) ==> holds(j, "in_use"@, Json::Str(u))
    &&& holds(j, "category"@, Json::Str(rules::category_label(l.hit.category)))
}

/// What a row of a listing of caches tells besides.
pub open spec fn tells_cache_files(j: Json, l: ListedView) -> bool {
    holds(j, "files"@, Json::Int(l.hit.files as int)) && holds(j, "note"@, Json::Str(l.hit.note))
}

proof fn lemma_cache_row(l: ListedView)
    ensures
        tells_cache(tool_calls::cache_row(l), l),
        tells_cache_files(tool_calls::cache_row(l), l),
        holds(
            tool_calls::cache_row(l),
            "mostly_shared"@,
            Json::Bool(l.hit.size > 2 * l.hit.private),
        ),
{
    lemma_keys();
}

proof fn lemma_cache_json(l: ListedView)
    ensures
        tells_cache(cli::cache_json(l), l),
        tells_cache_files(cli::cache_json(l), l),
        holds(cli::cache_json(l), "shared"@, Json::Bool(l.hit.size > 2 * l.hit.private)),
{
    lemma_keys();
}

proof fn lemma_largest_json(l: ListedView)
    ensures
        tells_cache(cli::largest_json(l), l),
        holds(cli::largest_json(l), "shared"@, Json::Bool(l.hit.size > 2 * l.hit.private)),
{
    lemma_keys();
}

/// The rows of a listing of caches are those of the directories, in order: each tells what
/// deleting its directory frees.
pub proof fn law_cache_rows_tell_what_deleting_frees(
    v: IndexView,
    age: u64,
    ls: Seq<ListedView>,
    limit: nat,
)
    ensures
        json::field(tool_calls::caches_reply_json(v, age, ls, limit), "caches"@) matches Some(
            Json::Arr(rows),
        ) && rows.len() <= limit && rows.len() <= ls.len() && (rows.len() == limit || rows.len()
            == ls.len()) && (forall|i: int|
            0 <= i < rows.len() ==> tells_cache(#[trigger] rows[i], ls[i]) && tells_cache_files(
                rows[i],
                ls[i],
            )
                && holds(rows[i], "mostly_shared"@, Json::Bool(ls[i].hit.size > 2 * ls[i].hit.private)))
            && holds(
            tool_calls::caches_reply_json(v, age, ls, limit),
            "shown"@,
            Json::Int(rows.len() as int),
        ),
        holds(
            tool_calls::caches_reply_json(v, age, ls, limit),
            "matches"@,
            Json::Int(ls.len() as int),
        ),
{
    lemma_keys();
    let n = cli::at_most(ls.len(), limit);
    let rows = Seq::new(n, |i: int| tool_calls::cache_row(ls[i]));
    assert forall|i: int| 0 <= i < rows.len() implies tells_cache(#[trigger] rows[i], ls[i])
        && tells_cache_files(rows[i], ls[i]) && holds(
        rows[i],
        "mostly_shared"@,
        Json::Bool(ls[i].hit.size > 2 * ls[i].hit.private),
    ) by {
        lemma_cache_row(ls[i]);
    }
}

/// The same of the listing on the command line, which shows every directory.
pub proof fn law_listed_caches_tell_what_deleting_frees(v: IndexView, age: u64, ls: Seq<ListedView>)
    ensures
        json::field(cli::caches_json(v, age, ls), "caches"@) matches Some(Json::Arr(rows))
            && rows.len() == ls.len() && (forall|i: int|
            0 <= i < rows.len() ==> tells_cache(#[trigger] rows[i], ls[i]) && tells_cache_files(
                rows[i],
                ls[i],
            ) && holds(rows[i], "shared"@, Json::Bool(ls[i].hit.size > 2 * ls[i].hit.private))),
        holds(cli::caches_json(v, age, ls), "root"@, Json::Str(v.root)),
        holds(cli::caches_json(v, age, ls), "scanned_at"@, Json::Int(v.scanned_at as int)),
        holds(cli::caches_json(v, age, ls), "age_seconds"@, Json::Int(age as int)),
{
    lemma_keys();
    let rows = ls.map_values(|l: ListedView| cli::cache_json(l));
    assert forall|i: int| 0 <= i < rows.len() implies tells_cache(#[trigger] rows[i], ls[i])
        && tells_cache_files(rows[i], ls[i]) && holds(
        rows[i],
        "shared"@,
        Json::Bool(ls[i].hit.size > 2 * ls[i].hit.private),
    ) by {
        lemma_cache_json(ls[i]);
    }
}

/// What rows that tell of the directories add up to.
proof fn lemma_rows_add_up(rows: Seq<Json>, ls: Seq<ListedView>, k: nat)
    requires
        k <= ls.len() == rows.len(),
        forall|i: int| 0 <= i < rows.len() ==> tells_cache(#[trigger] rows[i], ls[i]),
    ensures
        util::sum(report::privates(ls, false, k)) == row_sum_where(
            rows,
            "bytes"@,
            "in_use"@,
            Json::Null,
            k,
        ),
        util::sum(ls.map_values(|l: ListedView| l.hit.size).take(k as int)) == row_sum(
            rows,
            "apparent_bytes"@,
            k,
        ),
        (forall|i: int| 0 <= i < k ==> (#[trigger] ls[i]).in_use is None) ==> row_sum_where(
            rows,
            "bytes"@,
            "in_use"@,
            Json::Null,
            k,
        ) == row_sum(rows, "bytes"@, k),
        row_sum_where(rows, "bytes"@, "in_use"@, Json::Null, k) <= row_sum(rows, "bytes"@, k),
    decreases k,
{
    if k > 0 {
        lemma_rows_add_up(rows, ls, (k - 1) as nat);
        let before = report::privates(ls, false, (k - 1) as nat);
        let x = ls[k - 1].hit.private;
        assert(before.push(x).drop_last() =~= before);
        let f = |l: ListedView| l.hit.size;
        let sizes = ls.map_values(f);
        assert(sizes.take(k as int).drop_last() =~= sizes.take(k - 1));
        assert(tells_cache(rows[k - 1], ls[k - 1]));
        assert(ls[k - 1].in_use is Some ==> !holds(rows[k - 1], "in_use"@, Json::Null));
    }
}

/// With every directory shown, the bytes of the rows that are not in use add up to what is
/// told to be reclaimable, and the sizes of all rows to what is told to be apparent. With
/// none in use that is the bytes of all rows.
pub proof fn law_cache_rows_add_up(v: IndexView, age: u64, ls: Seq<ListedView>, limit: nat)
    requires
        limit >= ls.len(),
    ensures
        ({
            let j = tool_calls::caches_reply_json(v, age, ls, limit);
            json::field(j, "caches"@) matches Some(Json::Arr(rows)) && {
                let free = row_sum_where(rows, "bytes"@, "in_use"@, Json::Null, rows.len());
                let all = row_sum(rows, "bytes"@, rows.len());
                let seeming = row_sum(rows, "apparent_bytes"@, rows.len());
                &&& free <= u64::MAX ==> tells(
                    j,
                    "reclaimable_bytes"@,
                    "reclaimable_human"@,
                    free as u64,
                )
                &&& seeming <= u64::MAX ==> tells(
                    j,
                    "apparent_bytes"@,
                    "apparent_human"@,
                    seeming as u64,
                )
                &&& free <= all
                &&& (forall|i: int| 0 <= i < ls.len() ==> (#[trigger] ls[i]).in_use is None)
                    ==> free == all
            }
        }),
{
    law_cache_rows_tell_what_deleting_frees(v, age, ls, limit);
    lemma_keys();
    let rows = Seq::new(ls.len(), |i: int| tool_calls::cache_row(ls[i]));
    let sizes = ls.map_values(|l: ListedView| l.hit.size);
    assert(cli::at_most(ls.len(), limit) == ls.len());
    lemma_rows_add_up(rows, ls, ls.len());
    assert(sizes.take(ls.len() as int) =~= sizes);
    if util::sum(report::privates(ls, false, ls.len())) <= u64::MAX {
        util::law_sum_is_exact(report::privates(ls, false, ls.len()));
    }
    if util::sum(sizes) <= u64::MAX {
        util::law_sum_is_exact(sizes);
    }
}

/// The same of the listing on the command line.
pub proof fn law_listed_caches_add_up(v: IndexView, age: u64, ls: Seq<ListedView>)
    ensures
        ({
            let j = cli::caches_json(v, age, ls);
            json::field(j, "caches"@) matches Some(Json::Arr(rows)) && {
                let free = row_sum_where(rows, "bytes"@, "in_use"@, Json::Null, rows.len());
                let all = row_sum(rows, "bytes"@, rows.len());
                let seeming = row_sum(rows, "apparent_bytes"@, rows.len());
                &&& free <= u64::MAX ==> tells(
                    j,
                    "reclaimable_bytes"@,
                    "reclaimable_human"@,
                    free as u64,
                )
                &&& seeming <= u64::MAX ==> tells(
                    j,
                    "apparent_bytes"@,
                    "apparent_human"@,
                    seeming as u64,
                )
                &&& free <= all
                &&& (forall|i: int| 0 <= i < ls.len() ==> (#[trigger] ls[i]).in_use is None)
                    ==> free == all
            }
        }),
{
    law_listed_caches_tell_what_deleting_frees(v, age, ls);
    lemma_keys();
    let rows = ls.map_values(|l: ListedView| cli::cache_json(l));
    let sizes = ls.map_values(|l: ListedView| l.hit.size);
    lemma_rows_add_up(rows, ls, ls.len());
    assert(sizes.take(ls.len() as int) =~= sizes);
    if util::sum(report::privates(ls, false, ls.len())) <= u64::MAX {
        util::law_sum_is_exact(report::privates(ls, false, ls.len()));
    }
    if util::sum(sizes) <= u64::MAX {
        util::law_sum_is_exact(sizes);
    }
}

// ---- totals ---------------------------------------------------------------------------

/// Whether a reply tells of an index how much lies below its root, in how many files, and
/// how much of that the caches `ls` free.
pub open spec fn tells_totals(j: Json, v: IndexView, ls: Seq<ListedView>) -> bool {
    let top = v.dirs[v.root_ix as int];
    &&& tells(j, "total_bytes"@, "total_human"@, top.subtree_bytes)
    &&& holds(j, "files"@, Json::Int(top.subtree_files as int))
    &&& exists|limit: nat|
        {
            let listed = #[trigger] tool_calls::caches_reply_json(v, 0, ls, limit);
            &&& json::field(j, "reclaimable_bytes"@) == json::field(listed, "reclaimable_bytes"@)
            &&& json::field(j, "reclaimable_human"@) == json::field(listed, "reclaimable_human"@)
        }
}

/// A finished scan, the root of an index and the command line tell the same of the same
/// index: what lies below its root, and what the listing of its caches tells to be
/// reclaimable.
#[verifier::spinoff_prover]
pub proof fn law_replies_agree_on_totals(
    root: Seq<char>,
    v: IndexView,
    mode: Mode,
    why: Seq<char>,
    changed: nat,
    saved: bool,
    seconds: Json,
    unreadable: u64,
    age: u64,
    disk: Option<(u64, u64)>,
    ls: Seq<ListedView>,
)
    ensures
        tells_totals(
            tool_calls::done_json(
                root,
                tool_calls::done_fields(
                    root,
                    v,
                    mode,
                    why,
                    changed,
                    saved,
                    seconds,
                    unreadable,
                    ls,
                ),
                unreadable,
            ),
            v,
            ls,
        ),
        tells_totals(cli::scan_json(root, v, mode, why, changed, saved, seconds, ls), v, ls),
        tells_totals(tool_calls::status_root_json(v, age, ls, disk), v, ls),
        tells_totals(cli::root_json(v, age, ls), v, ls),
{
    lemma_keys();
    let listed = tool_calls::caches_reply_json(v, 0, ls, 0);
    lemma_done_totals(root, v, mode, why, changed, saved, seconds, unreadable, ls);
    lemma_scan_totals(root, v, mode, why, changed, saved, seconds, ls);
    assert(json::field(listed, "reclaimable_bytes"@) == Some(
        Json::Int(report::free_bytes(ls) as int),
    ));
    assert(json::field(listed, "reclaimable_human"@) == Some(
        Json::Str(util::human_size(report::free_bytes(ls))),
    ));
}

#[verifier::spinoff_prover]
proof fn lemma_done_totals(
    root: Seq<char>,
    v: IndexView,
    mode: Mode,
    why: Seq<char>,
    changed: nat,
    saved: bool,
    seconds: Json,
    unreadable: u64,
    ls: Seq<ListedView>,
)
    ensures
        ({
            let j = tool_calls::done_json(
                root,
                tool_calls::done_fields(
                    root,
                    v,
                    mode,
                    why,
                    changed,
                    saved,
                    seconds,
                    unreadable,
                    ls,
                ),
                unreadable,
            );
            let top = v.dirs[v.root_ix as int];
            &&& tells(j, "total_bytes"@, "total_human"@, top.subtree_bytes)
            &&& holds(j, "files"@, Json::Int(top.subtree_files as int))
            &&& tells(j, "reclaimable_bytes"@, "reclaimable_human"@, report::free_bytes(ls))
        }),
{
    lemma_keys();
}

#[verifier::spinoff_prover]
proof fn lemma_scan_totals(
    root: Seq<char>,
    v: IndexView,
    mode: Mode,
    why: Seq<char>,
    changed: nat,
    saved: bool,
    seconds: Json,
    ls: Seq<ListedView>,
)
    ensures
        ({
            let j = cli::scan_json(root, v, mode, why, changed, saved, seconds, ls);
            let top = v.dirs[v.root_ix as int];
            &&& tells(j, "total_bytes"@, "total_human"@, top.subtree_bytes)
            &&& holds(j, "files"@, Json::Int(top.subtree_files as int))
            &&& tells(j, "reclaimable_bytes"@, "reclaimable_human"@, report::free_bytes(ls))
        }),
{
    lemma_keys();
}

/// A finished scan tells how it went: which way was taken and why, how many directories
/// were read again, how many could not be read, whether the index was written, and that it
/// is done. Only where folders of the whole disk could not be read is there a hint.
#[verifier::spinoff_prover]
pub proof fn law_scans_tell_how_they_went(
    root: Seq<char>,
    v: IndexView,
    mode: Mode,
    why: Seq<char>,
    changed: nat,
    saved: bool,
    seconds: Json,
    unreadable: u64,
    ls: Seq<ListedView>,
)
    ensures
        ({
            let j = tool_calls::done_json(
                root,
                tool_calls::done_fields(
                    root,
                    v,
                    mode,
                    why,
                    changed,
                    saved,
                    seconds,
                    unreadable,
                    ls,
                ),
                unreadable,
            );
            &&& holds(j, "status"@, Json::Str("done"@))
            &&& holds(j, "root"@, Json::Str(root))
            &&& holds(j, "mode"@, Json::Str(index::mode_str(mode)))
            &&& holds(j, "why"@, Json::Str(why))
            &&& holds(j, "changed_dirs"@, Json::Int(changed as int))
            &&& holds(j, "unreadable_dirs"@, Json::Int(unreadable as int))
            &&& holds(j, "index_saved"@, Json::Bool(saved))
            &&& holds(j, "seconds"@, seconds)
            &&& holds(j, "cache_dirs"@, Json::Int(ls.len() as int))
            &&& json::field(j, "hint"@) is Some <==> unreadable > 0
                && path::comps(root) == path::comps(
                "/"@,
            )
        }),
{
    lemma_keys();
}

/// A scan on the command line tells the same, and the largest caches, at most 25 of them,
/// each with what deleting it frees; what is reclaimable and what is in use make up all
/// that the caches hold.
#[verifier::spinoff_prover]
pub proof fn law_scan_shows_the_largest(
    root: Seq<char>,
    v: IndexView,
    mode: Mode,
    why: Seq<char>,
    changed: nat,
    saved: bool,
    seconds: Json,
    ls: Seq<ListedView>,
)
    ensures
        ({
            let j = cli::scan_json(root, v, mode, why, changed, saved, seconds, ls);
            &&& holds(j, "root"@, Json::Str(root))
            &&& holds(j, "mode"@, Json::Str(index::mode_str(mode)))
            &&& holds(j, "why"@, Json::Str(why))
            &&& holds(j, "changed_dirs"@, Json::Int(changed as int))
            &&& holds(j, "index_saved"@, Json::Bool(saved))
            &&& holds(j, "seconds"@, seconds)
            &&& holds(j, "cache_dirs"@, Json::Int(ls.len() as int))
            &&& json::field(j, "largest"@) matches Some(Json::Arr(rows)) && rows.len() <= 25
                && rows.len() <= ls.len() && (rows.len() == 25 || rows.len() == ls.len()) && (
            forall|i: int| 0 <= i < rows.len() ==> tells_cache(#[trigger] rows[i], ls[i]) && holds(
                rows[i],
                "shared"@,
                Json::Bool(ls[i].hit.size > 2 * ls[i].hit.private),
            ))
        }),
        ({
            let j = cli::scan_json(root, v, mode, why, changed, saved, seconds, ls);
            let held = util::sum(ls.map_values(|l: ListedView| l.hit.private));
            held <= u64::MAX ==> (json::field(j, "reclaimable_bytes"@) matches Some(Json::Int(a))
                && json::field(j, "in_use_bytes"@) matches Some(Json::Int(b)) && a + b == held
                && tells(j, "in_use_bytes"@, "in_use_human"@, b as u64))
        }),
{
    lemma_keys();
    let n = cli::at_most(ls.len(), 25);
    let rows = Seq::new(n, |i: int| cli::largest_json(ls[i]));
    assert forall|i: int| 0 <= i < rows.len() implies tells_cache(#[trigger] rows[i], ls[i])
        && holds(rows[i], "shared"@, Json::Bool(ls[i].hit.size > 2 * ls[i].hit.private)) by {
        lemma_largest_json(ls[i]);
    }
    if util::sum(ls.map_values(|l: ListedView| l.hit.private)) <= u64::MAX {
        report::law_nothing_in_use_is_reclaimable(ls);
    }
}

/// What an index is told of without a scan: where it begins, when it was made, how old it
/// is and how it was made; on the command line also what no other file shares, and
/// otherwise how large its volume is and what is free of it.
#[verifier::spinoff_prover]
pub proof fn law_roots_tell_their_age(
    v: IndexView,
    age: u64,
    ls: Seq<ListedView>,
    disk: Option<(u64, u64)>,
)
    ensures
        ({
            let j = cli::root_json(v, age, ls);
            &&& holds(j, "root"@, Json::Str(v.root))
            &&& holds(j, "scanned_at"@, Json::Int(v.scanned_at as int))
            &&& holds(j, "age_seconds"@, Json::Int(age as int))
            &&& holds(j, "mode"@, Json::Str(index::mode_str(v.mode)))
            &&& tells(
                j,
                "unshared_bytes"@,
                "unshared_human"@,
                v.dirs[v.root_ix as int].subtree_private,
            )
        }),
        ({
            let j = tool_calls::status_root_json(v, age, ls, disk);
            &&& holds(j, "root"@, Json::Str(v.root))
            &&& holds(j, "scanned_at"@, Json::Int(v.scanned_at as int))
            &&& holds(j, "mode"@, Json::Str(index::mode_str(v.mode)))
            &&& holds(j, "cache_dirs"@, Json::Int(ls.len() as int))
            &&& disk matches Some(d) ==> holds(
                j,
                "volume_total_human"@,
                Json::Str(util::human_size(d.0)),
            ) && holds(j, "volume_free_human"@, Json::Str(util::human_size(d.1)))
            &&& disk is None ==> holds(j, "volume_total_human"@, Json::Null) && holds(
                j,
                "volume_free_human"@,
                Json::Null,
            )
        }),
{
    lemma_keys();
}

// ---- plans and what became of them ------------------------------------------------------

/// A row of a plan tells the path of its item, what deleting it frees, and the rule that it
/// matches, if any.
pub open spec fn tells_item(j: Json, i: ItemView) -> bool {
    &&& holds(j, "path"@, Json::Str(i.path))
    &&& tells(j, "bytes"@, "human"@, i.bytes)
    &&& i.category matches Some(c) ==> holds(j, "category"@, Json::Str(rules::category_label(c)))
    &&& i.category is None ==> holds(j, "category"@, Json::Null)
    &&& i.note matches Some(n) ==> holds(j, "note"@, Json::Str(n))
    &&& i.note is None ==> holds(j, "note"@, Json::Null)
}

proof fn lemma_items(rows: Seq<Json>, items: Seq<ItemView>, k: nat)
    requires
        k <= items.len(),
        rows == items.map_values(|i: ItemView| report::item_json(i)),
    ensures
        forall|i: int| 0 <= i < items.len() ==> tells_item(#[trigger] rows[i], items[i]),
        util::sum(cleanup::item_bytes(items).take(k as int)) == row_sum(rows, "bytes"@, k),
    decreases k,
{
    lemma_keys();
    assert forall|i: int| 0 <= i < items.len() implies tells_item(#[trigger] rows[i], items[i]) by {
    }
    if k > 0 {
        lemma_items(rows, items, (k - 1) as nat);
        let all = cleanup::item_bytes(items);
        assert(all.take(k as int).drop_last() =~= all.take(k - 1));
        assert(tells_item(rows[k - 1], items[k - 1]));
    }
}

/// A plan that is only shown lists its items in order, each with what deleting it frees,
/// and what it would free is their sum; what was refused is listed with the reason. The
/// command line shows the same.
#[verifier::spinoff_prover]
pub proof fn law_previews_add_up(
    root: Seq<char>,
    items: Seq<ItemView>,
    rejected: Seq<(Seq<char>, Seq<char>)>,
)
    ensures
        ({
            let j = tool_calls::planned_json(root, items, rejected);
            &&& holds(j, "root"@, Json::Str(root))
            &&& json::field(j, "would_trash"@) matches Some(Json::Arr(rows)) && rows.len()
                == items.len() && (forall|i: int|
                0 <= i < rows.len() ==> tells_item(#[trigger] rows[i], items[i])) && (row_sum(
                rows,
                "bytes"@,
                rows.len(),
            ) <= u64::MAX ==> tells(
                j,
                "would_free_bytes"@,
                "would_free_human"@,
                row_sum(rows, "bytes"@, rows.len()) as u64,
            ))
            &&& tells_rejected(j, rejected)
        }),
        ({
            let j = tool_calls::planned_json(root, items, rejected);
            let c = cli::preview_json(items);
            &&& holds(c, "confirmed"@, Json::Bool(false))
            &&& json::field(c, "would_trash"@) == json::field(j, "would_trash"@)
            &&& json::field(c, "would_free_bytes"@) == json::field(j, "would_free_bytes"@)
            &&& json::field(c, "would_free_human"@) == json::field(j, "would_free_human"@)
        }),
{
    lemma_keys();
    lemma_rejected(rejected);
    let rows = items.map_values(|i: ItemView| report::item_json(i));
    lemma_items(rows, items, items.len());
    let all = cleanup::item_bytes(items);
    assert(all.take(items.len() as int) =~= all);
    if util::sum(all) <= u64::MAX {
        util::law_sum_is_exact(all);
    }
}

/// Whether a reply lists what was refused, in order, each with the reason.
pub open spec fn tells_rejected(j: Json, rejected: Seq<(Seq<char>, Seq<char>)>) -> bool {
    json::field(j, "rejected"@) matches Some(Json::Arr(rows)) && rows.len() == rejected.len()
        && forall|i: int|
        0 <= i < rows.len() ==> holds(#[trigger] rows[i], "path"@, Json::Str(rejected[i].0))
            && holds(rows[i], "reason"@, Json::Str(rejected[i].1))
}

proof fn lemma_rejected(rejected: Seq<(Seq<char>, Seq<char>)>)
    ensures
        ({
            let rows = rejected.map_values(
                |x: (Seq<char>, Seq<char>)| tool_calls::rejected_json(x),
            );
            forall|i: int|
                0 <= i < rows.len() ==> holds(#[trigger] rows[i], "path"@, Json::Str(rejected[i].0))
                    && holds(rows[i], "reason"@, Json::Str(rejected[i].1))
        }),
{
    lemma_keys();
}

/// A row for what became of an item.
pub open spec fn tells_outcome(j: Json, o: OutcomeView) -> bool {
    &&& holds(j, "path"@, Json::Str(o.path))
    &&& holds(j, "trashed"@, Json::Bool(o.trashed))
    &&& holds(j, "bytes"@, Json::Int(o.bytes as int))
    &&& o.error matches Some(e) ==> holds(j, "error"@, Json::Str(e))
    &&& o.error is None ==> holds(j, "error"@, Json::Null)
}

/// How many of the first `k` rows hold `x` under `key`.
pub open spec fn row_count(rows: Seq<Json>, key: Seq<char>, x: Json, k: nat) -> nat
    decreases k,
{
    if k == 0 {
        0
    } else {
        row_count(rows, key, x, (k - 1) as nat) + if holds(rows[k - 1], key, x) {
            1nat
        } else {
            0
        }
    }
}

proof fn lemma_outcomes(rows: Seq<Json>, os: Seq<OutcomeView>, k: nat)
    requires
        k <= os.len() == rows.len(),
        forall|i: int| 0 <= i < os.len() ==> tells_outcome(#[trigger] rows[i], os[i]),
    ensures
        report::trashed_sizes(os, k).len() == row_count(rows, "trashed"@, Json::Bool(true), k),
        k - report::trashed_sizes(os, k).len() == row_count(
            rows,
            "trashed"@,
            Json::Bool(false),
            k,
        ),
        util::sum(report::trashed_sizes(os, k)) == row_sum_where(
            rows,
            "bytes"@,
            "trashed"@,
            Json::Bool(true),
            k,
        ),
    decreases k,
{
    if k > 0 {
        lemma_outcomes(rows, os, (k - 1) as nat);
        let before = report::trashed_sizes(os, (k - 1) as nat);
        assert(before.push(os[k - 1].bytes).drop_last() =~= before);
        assert(tells_outcome(rows[k - 1], os[k - 1]));
    }
}

/// Once a plan was carried out, there is a row for every item, in order, with what became
/// of it; as many are told to be trashed as rows say so, and what they freed is the sum
/// over those rows.
#[verifier::spinoff_prover]
pub proof fn law_results_add_up(
    root: Seq<char>,
    os: Seq<OutcomeView>,
    rejected: Seq<(Seq<char>, Seq<char>)>,
)
    ensures
        ({
            let j = tool_calls::carried_out_json(root, os, rejected);
            &&& holds(j, "confirmed"@, Json::Bool(true))
            &&& holds(j, "root"@, Json::Str(root))
            &&& tells_rejected(j, rejected)
            &&& json::field(j, "results"@) matches Some(Json::Arr(rows)) && rows.len() == os.len()
                && (forall|i: int|
                0 <= i < rows.len() ==> tells_outcome(#[trigger] rows[i], os[i]) && holds(
                    rows[i],
                    "human"@,
                    Json::Str(util::human_size(os[i].bytes)),
                )) && tells_freed(j, rows)
        }),
{
    lemma_keys();
    lemma_rejected(rejected);
    let rows = os.map_values(|o: OutcomeView| tool_calls::result_json(o));
    assert forall|i: int| 0 <= i < rows.len() implies tells_outcome(#[trigger] rows[i], os[i])
        && holds(rows[i], "human"@, Json::Str(util::human_size(os[i].bytes))) by {
    }
    lemma_outcomes(rows, os, os.len());
    let sizes = report::trashed_sizes(os, os.len());
    if util::sum(sizes) <= u64::MAX {
        util::law_sum_is_exact(sizes);
    }
}

/// Whether a reply tells how many of the rows were trashed and what that freed.
pub open spec fn tells_freed(j: Json, rows: Seq<Json>) -> bool {
    let free = row_sum_where(rows, "bytes"@, "trashed"@, Json::Bool(true), rows.len());
    &&& holds(
        j,
        "trashed_count"@,
        Json::Int(row_count(rows, "trashed"@, Json::Bool(true), rows.len()) as int),
    )
    &&& free <= u64::MAX ==> tells(j, "freed_bytes"@, "freed_human"@, free as u64)
}

/// The same on the command line, which also counts the rows that were not trashed.
#[verifier::spinoff_prover]
pub proof fn law_trashed_adds_up(os: Seq<OutcomeView>)
    ensures
        ({
            let j = cli::trashed_json(os);
            &&& holds(j, "confirmed"@, Json::Bool(true))
            &&& json::field(j, "results"@) matches Some(Json::Arr(rows)) && rows.len() == os.len()
                && (forall|i: int|
                0 <= i < rows.len() ==> tells_outcome(#[trigger] rows[i], os[i])) && tells_freed(
                j,
                rows,
            ) && holds(
                j,
                "failed_count"@,
                Json::Int(row_count(rows, "trashed"@, Json::Bool(false), rows.len()) as int),
            )
        }),
{
    lemma_keys();
    let rows = os.map_values(|o: OutcomeView| cli::outcome_json(o));
    assert forall|i: int| 0 <= i < rows.len() implies tells_outcome(
        #[trigger] rows[i],
        os[i],
    ) by {
    }
    lemma_outcomes(rows, os, os.len());
    let sizes = report::trashed_sizes(os, os.len());
    if util::sum(sizes) <= u64::MAX {
        util::law_sum_is_exact(sizes);
    }
}

// ---- directories ------------------------------------------------------------------------

/// A row tells of a node how much lies in it, in how many files, and whether it is a
/// directory.
pub open spec fn tells_node(j: Json, t: TreeView, i: int) -> bool {
    &&& tells(j, "bytes"@, "human"@, t.nodes[i].size)
    &&& holds(j, "is_dir"@, Json::Bool(t.nodes[i].is_dir))
    &&& holds(j, "files"@, Json::Int(t.nodes[i].file_count as int))
}

proof fn lemma_top_row(t: TreeView, i: int)
    ensures
        tells_node(tool_calls::top_row(t, i), t, i),
        holds(tool_calls::top_row(t, i), "path"@, Json::Str(scan::node_path(t, i))),
{
    lemma_keys();
}

proof fn lemma_tree_row(t: TreeView, i: int)
    ensures
        tells_node(tool_calls::tree_row(t, i), t, i),
        holds(tool_calls::tree_row(t, i), "name"@, Json::Str(t.nodes[i].name)),
        holds(tool_calls::tree_row(t, i), "summary_row"@, Json::Bool(t.nodes[i].synthetic)),
        t.nodes[i].synthetic ==> holds(tool_calls::tree_row(t, i), "path"@, Json::Null),
        !t.nodes[i].synthetic ==> holds(
            tool_calls::tree_row(t, i),
            "path"@,
            Json::Str(scan::node_path(t, i)),
        ),
{
    lemma_keys();
}

/// The listing of the largest tells the size of the node that is asked for, and then, with
/// the largest first, nodes that lie below it, none twice; what is left out is no larger
/// than what is shown, and something is left out only where as many as asked for are shown.
#[verifier::spinoff_prover]
pub proof fn law_top_shows_the_largest(
    v: IndexView,
    age: u64,
    p: Seq<char>,
    t: TreeView,
    start: int,
    dirs_only: bool,
    sorted: Seq<usize>,
    limit: nat,
)
    requires
        t.wf(),
        0 <= start < t.nodes.len(),
        browse::below(t.nodes, start, dirs_only).len() <= usize::MAX,
        order::sorted_desc(
            browse::below(t.nodes, start, dirs_only),
            browse::node_sizes(t.nodes, browse::below(t.nodes, start, dirs_only)),
            sorted,
        ),
    ensures
        ({
            let j = tool_calls::top_json(v, age, p, t, start, sorted, limit);
            let all = browse::below(t.nodes, start, dirs_only);
            &&& holds(j, "path"@, Json::Str(p))
            &&& tells(j, "total_bytes"@, "total_human"@, t.nodes[start].size)
            &&& json::field(j, "entries"@) matches Some(Json::Arr(rows)) && rows.len() <= limit
                && rows.len() <= all.len() && (rows.len() == limit || rows.len() == all.len()) && (
            forall|i: int|
                0 <= i < rows.len() ==> tells_node(#[trigger] rows[i], t, sorted[i] as int)
                    && holds(rows[i], "path"@, Json::Str(scan::node_path(t, sorted[i] as int)))
                    && all.contains(sorted[i])) && (forall|a: int, b: int|
                0 <= a < b < rows.len() ==> #[trigger] sorted[a] != #[trigger] sorted[b]
                    && t.nodes[sorted[a] as int].size >= t.nodes[sorted[b] as int].size) && (forall|
                c: usize,
                i: int,
            |
                0 <= i < rows.len() && #[trigger] all.contains(c) && !sorted.take(
                    rows.len() as int,
                ).contains(c) ==> t.nodes[c as int].size <= t.nodes[(
                #[trigger] sorted[i]) as int].size)
        }),
{
    lemma_keys();
    let all = browse::below(t.nodes, start, dirs_only);
    let keys = browse::node_sizes(t.nodes, all);
    let n = cli::at_most(sorted.len(), limit);
    let rows = Seq::new(n, |i: int| tool_calls::top_row(t, sorted[i] as int));
    browse::law_everything_below_is_listed(t, start, dirs_only);
    order::lemma_sorted_keeps(all, keys, sorted);
    order::law_sorted_is_descending(all, keys, sorted, |i: usize| t.nodes[i as int].size);
    let key = |i: usize| t.nodes[i as int].size;
    assert forall|i: int| 0 <= i < rows.len() implies tells_node(
        #[trigger] rows[i],
        t,
        sorted[i] as int,
    ) && holds(rows[i], "path"@, Json::Str(scan::node_path(t, sorted[i] as int))) && all.contains(
        sorted[i],
    ) by {
        lemma_top_row(t, sorted[i] as int);
        assert(sorted.contains(sorted[i]));
    }
    assert forall|a: int, b: int| 0 <= a < b < rows.len() implies #[trigger] sorted[a]
        != #[trigger] sorted[b] && t.nodes[sorted[a] as int].size
        >= t.nodes[sorted[b] as int].size by {
        assert(key(sorted[a]) >= key(sorted[b]));
    }
    assert forall|c: usize, i: int|
        0 <= i < rows.len() && #[trigger] all.contains(c) && !sorted.take(
            rows.len() as int,
        ).contains(c) implies t.nodes[c as int].size <= t.nodes[(
    #[trigger] sorted[i]) as int].size by {
        assert(sorted.contains(c));
        let k = choose|k: int| 0 <= k < sorted.len() && sorted[k] == c;
        if k < rows.len() {
            assert(sorted.take(rows.len() as int)[k] == c);
        }
        assert(key(sorted[i]) >= key(sorted[k]));
    }
}

/// The listing of a directory tells its size, how many children it has, and of the first
/// of them, as many as asked for, each its name, its size and what it is; a stand-in for
/// small files has no path.
#[verifier::spinoff_prover]
pub proof fn law_tree_shows_the_children(
    v: IndexView,
    age: u64,
    p: Seq<char>,
    t: TreeView,
    start: int,
    limit: nat,
)
    ensures
        ({
            let j = tool_calls::tree_json(v, age, p, t, start, limit);
            let kids = t.nodes[start].children;
            &&& holds(j, "path"@, Json::Str(p))
            &&& tells(j, "total_bytes"@, "total_human"@, t.nodes[start].size)
            &&& holds(j, "children"@, Json::Int(kids.len() as int))
            &&& json::field(j, "entries"@) matches Some(Json::Arr(rows)) && rows.len() <= limit
                && rows.len() <= kids.len() && (rows.len() == limit || rows.len() == kids.len())
                && holds(j, "shown"@, Json::Int(rows.len() as int)) && (forall|i: int|
                0 <= i < rows.len() ==> tells_child(#[trigger] rows[i], t, kids[i] as int))
        }),
{
    lemma_keys();
    let kids = t.nodes[start].children;
    let n = cli::at_most(kids.len(), limit);
    let rows = Seq::new(n, |i: int| tool_calls::tree_row(t, kids[i] as int));
    assert forall|i: int| 0 <= i < rows.len() implies tells_child(
        #[trigger] rows[i],
        t,
        kids[i] as int,
    ) by {
        lemma_tree_row(t, kids[i] as int);
    }
}

/// A row tells of a child its name, its path where it has one, and what a node tells.
pub open spec fn tells_child(j: Json, t: TreeView, i: int) -> bool {
    &&& tells_node(j, t, i)
    &&& holds(j, "name"@, Json::Str(t.nodes[i].name))
    &&& holds(j, "summary_row"@, Json::Bool(t.nodes[i].synthetic))
    &&& t.nodes[i].synthetic ==> holds(j, "path"@, Json::Null)
    &&& !t.nodes[i].synthetic ==> holds(j, "path"@, Json::Str(scan::node_path(t, i)))
}

/// Where the tree adds up and every child is shown, the bytes of the rows add up to the
/// size of the directory, and their files to its files.
#[verifier::spinoff_prover]
pub proof fn law_children_add_up(
    v: IndexView,
    age: u64,
    p: Seq<char>,
    t: TreeView,
    start: int,
    limit: nat,
)
    requires
        t.wf(),
        removal::adds_up(t.nodes),
        0 <= start < t.nodes.len(),
        t.nodes[start].children.len() > 0,
        limit >= t.nodes[start].children.len(),
    ensures
        ({
            let j = tool_calls::tree_json(v, age, p, t, start, limit);
            json::field(j, "entries"@) matches Some(Json::Arr(rows)) && holds(
                j,
                "total_bytes"@,
                Json::Int(row_sum(rows, "bytes"@, rows.len())),
            ) && row_sum(rows, "files"@, rows.len()) == t.nodes[start].file_count
        }),
{
    law_tree_shows_the_children(v, age, p, t, start, limit);
    lemma_keys();
    let kids = t.nodes[start].children;
    let rows = Seq::new(kids.len(), |i: int| tool_calls::tree_row(t, kids[i] as int));
    let f = scan::links(t.nodes);
    assert(f.kids[start] == kids);
    assert forall|k: int| 0 <= k < kids.len() implies #[trigger] kids[k] < t.nodes.len() by {
        assert(f.kids[start][k] < f.len());
    }
    lemma_rows_are_kids(rows, t, kids, kids.len());
    assert(kids.take(kids.len() as int) =~= kids);
    assert(scan::sizes(t.nodes)[start] == removal::kid_sum(scan::sizes(t.nodes), kids));
    assert(scan::counts(t.nodes)[start] == removal::kid_sum(scan::counts(t.nodes), kids));
}

proof fn lemma_rows_are_kids(rows: Seq<Json>, t: TreeView, kids: Seq<usize>, k: nat)
    requires
        k <= kids.len() == rows.len(),
        forall|i: int| 0 <= i < kids.len() ==> #[trigger] kids[i] < t.nodes.len(),
        forall|i: int| 0 <= i < rows.len() ==> tells_child(#[trigger] rows[i], t, kids[i] as int),
    ensures
        row_sum(rows, "bytes"@, k) == removal::kid_sum(scan::sizes(t.nodes), kids.take(k as int)),
        row_sum(rows, "files"@, k) == removal::kid_sum(scan::counts(t.nodes), kids.take(k as int)),
    decreases k,
{
    if k > 0 {
        lemma_rows_are_kids(rows, t, kids, (k - 1) as nat);
        assert(kids.take(k as int).drop_last() =~= kids.take(k - 1));
        assert(tells_child(rows[k - 1], t, kids[k - 1] as int));
    }
}

} // verus!
