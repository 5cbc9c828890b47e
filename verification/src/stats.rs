use vstd::prelude::*;

use crate::contract::{HealthSnapshot, HealthState, MigrationSnapshot};
use crate::storage::{IndexRecoveryState, SCHEMA_VERSION};
use crate::text::{owned, push_str};

verus! {

// ---------------------------------------------------------------------------
// Stored numbers
// ---------------------------------------------------------------------------

/// Whether every character of `d` is an ASCII digit.
pub open spec fn all_digits(d: Seq<char>) -> bool {
    forall|i: int| 0 <= i < d.len() ==> '0' <= #[trigger] d[i] <= '9'
}

/// The value of a string of decimal digits.
pub open spec fn digits_value(d: Seq<char>) -> int
    decreases d.len(),
{
    if d.len() == 0 {
        0
    } else {
        digits_value(d.drop_last()) * 10 + (d.last() as int - '0' as int)
    }
}

/// The digits of an unsigned number written with an optional leading `+`.
pub open spec fn unsigned_digits(s: Seq<char>) -> Seq<char> {
    if s.len() > 0 && s[0] == '+' {
        s.drop_first()
    } else {
        s
    }
}

/// What `str::parse::<u32>` gives: the value of an optional `+` followed by
/// at least one decimal digit and nothing else, when it fits in 32 bits.
pub open spec fn parsed_u32(s: Seq<char>) -> Option<u32> {
    let d = unsigned_digits(s);
    if d.len() > 0 && all_digits(d) && digits_value(d) <= u32::MAX {
        Some(digits_value(d) as u32)
    } else {
        None
    }
}

proof fn lemma_digits_value_grows(d: Seq<char>, k: int)
    requires
        all_digits(d),
        0 <= k <= d.len(),
    ensures
        0 <= digits_value(d.take(k)) <= digits_value(d),
    decreases d.len(),
{
    if d.len() > 0 {
        if k == d.len() {
            assert(d.take(k) =~= d);
        } else {
            assert(all_digits(d.drop_last()));
            assert(d.drop_last().take(k) =~= d.take(k));
            lemma_digits_value_grows(d.drop_last(), k);
        }
        assert(d.drop_last().take(d.len() - 1) =~= d.drop_last());
        lemma_digits_value_grows(d.drop_last(), d.len() - 1);
    } else {
        assert(d.take(k) =~= d);
    }
}

/// Parses a stored number as `str::parse::<u32>` does.
pub fn parse_u32(s: &str) -> (value: Option<u32>)
    ensures
        value == parsed_u32(s@),
{
    let chars = crate::text::chars_of(s);
    let ghost d = unsigned_digits(s@);
    let start: usize = if chars.len() > 0 && chars[0] == '+' {
        1
    } else {
        0
    };
    assert(d =~= chars@.skip(start as int));
    if start == chars.len() {
        return None;
    }
    let mut i: usize = start;
    while i < chars.len()
        invariant
            start <= i <= chars.len(),
            d == chars@.skip(start as int),
            d == unsigned_digits(s@),
            forall|t: int| 0 <= t < i - start ==> '0' <= #[trigger] d[t] <= '9',
        decreases chars.len() - i,
    {
        if chars[i] < '0' || chars[i] > '9' {
            assert(d[i - start] == chars@[i as int]);
            assert(!('0' <= d[i - start] <= '9'));
            assert(!all_digits(d));
            return None;
        }
        assert(d[i - start] == chars@[i as int]);
        i = i + 1;
    }
    assert(all_digits(d));
    let mut acc: u64 = 0;
    let mut j: usize = start;
    assert(d.take(0) =~= Seq::<char>::empty());
    while j < chars.len()
        invariant
            start <= j <= chars.len(),
            d == chars@.skip(start as int),
            d == unsigned_digits(s@),
            all_digits(d),
            d.len() == chars.len() - start,
            acc == digits_value(d.take(j - start)),
            acc <= u32::MAX,
        decreases chars.len() - j,
    {
        assert(d.take(j - start + 1).drop_last() =~= d.take(j - start));
        assert(d[j - start] == chars@[j as int]);
        let digit = (chars[j] as u32 - '0' as u32) as u64;
        let next = acc * 10 + digit;
        assert(digits_value(d.take(j - start + 1)) == next) by {
            let k = j - start + 1;
            assert(d.take(k).last() == chars@[j as int]);
        }
        if next > u32::MAX as u64 {
            proof {
                lemma_digits_value_grows(d, j - start + 1);
            }
            assert(digits_value(d) > u32::MAX);
            return None;
        }
        acc = next;
        j = j + 1;
    }
    assert(d.take(d.len() as int) =~= d);
    Some(acc as u32)
}

/// A stored counter read as a count: negative values count as zero.
pub fn non_negative_count(value: i64) -> (count: u64)
    ensures
        count == if value < 0 {
            0
        } else {
            value as int
        },
{
    if value < 0 {
        0
    } else {
        value as u64
    }
}

// ---------------------------------------------------------------------------
// Health
// ---------------------------------------------------------------------------

/// The diagnostic for an index whose recovery state is `running`.
pub open spec fn running_diagnostic() -> Seq<char> {
    "Index recovery state is running; a previous indexing pass may not have completed."@
}

/// The diagnostic for an index whose recovery state is `failed`, with the
/// recorded error when there is one.
pub open spec fn failed_diagnostic(last_error: Seq<char>) -> Seq<char> {
    if last_error.len() == 0 {
        "Index recovery state is failed."@
    } else {
        "Index recovery state is failed: "@ + last_error
    }
}

/// The diagnostic for an index with chunks but no vectors.
pub open spec fn missing_vectors_diagnostic() -> Seq<char> {
    "Chunks are indexed but no vector rows exist; semantic retrieval is unavailable."@
}

/// The diagnostics of an index, in order: its recovery state, then missing
/// vectors.
pub open spec fn health_diagnostics(
    recovery: IndexRecoveryState,
    last_error: Seq<char>,
    chunk_count: u64,
    vector_count: u64,
) -> Seq<Seq<char>> {
    let first: Seq<Seq<char>> = match recovery {
        IndexRecoveryState::Clean => Seq::empty(),
        IndexRecoveryState::Running => seq![running_diagnostic()],
        IndexRecoveryState::Failed => seq![failed_diagnostic(last_error)],
    };
    if chunk_count > 0 && vector_count == 0 {
        first.push(missing_vectors_diagnostic())
    } else {
        first
    }
}

/// The diagnostics of an index: one for its recovery state unless it is clean
/// (the running message, or the failed message with the recorded error when
/// there is one), then, whatever the recovery state, the missing-vectors
/// message exactly when there are chunks but no vectors.
pub proof fn lemma_health_diagnostics_laws(
    recovery: IndexRecoveryState,
    last_error: Seq<char>,
    chunk_count: u64,
    vector_count: u64,
)
    ensures
        ({
            let d = health_diagnostics(recovery, last_error, chunk_count, vector_count);
            let missing = "Chunks are indexed but no vector rows exist; semantic retrieval is unavailable."@;
            &&& d.len() == (if recovery is Clean {
                0int
            } else {
                1int
            }) + (if chunk_count > 0 && vector_count == 0 {
                1int
            } else {
                0int
            })
            &&& (chunk_count > 0 && vector_count == 0) <==> d.contains(missing)
            &&& (chunk_count > 0 && vector_count == 0) ==> d.last() == missing
            &&& recovery is Running ==> d[0]
                == "Index recovery state is running; a previous indexing pass may not have completed."@
            &&& (recovery is Failed && last_error.len() == 0) ==> d[0]
                == "Index recovery state is failed."@
            &&& (recovery is Failed && last_error.len() > 0) ==> d[0]
                == "Index recovery state is failed: "@ + last_error
        }),
{
    let d = health_diagnostics(recovery, last_error, chunk_count, vector_count);
    let missing = "Chunks are indexed but no vector rows exist; semantic retrieval is unavailable."@;
    reveal_strlit("Chunks are indexed but no vector rows exist; semantic retrieval is unavailable.");
    reveal_strlit("Index recovery state is running; a previous indexing pass may not have completed.");
    reveal_strlit("Index recovery state is failed.");
    reveal_strlit("Index recovery state is failed: ");
    if !(recovery is Clean) {
        assert(d[0][0] == 'I');
        assert(d[0] != missing);
    }
    if chunk_count > 0 && vector_count == 0 {
        assert(d.last() == missing);
        assert(d.contains(missing));
    } else {
        assert(!d.contains(missing)) by {
            if d.contains(missing) {
                let k = choose|k: int| 0 <= k < d.len() && d[k] == missing;
                assert(k == 0);
            }
        }
    }
}

/// The health of an index: unavailable after a failed pass, healthy when
/// nothing is diagnosed, degraded otherwise.
pub open spec fn health_state_of(recovery: IndexRecoveryState, diagnostic_count: nat) -> HealthState {
    if recovery == IndexRecoveryState::Failed {
        HealthState::Unavailable
    } else if diagnostic_count == 0 {
        HealthState::Healthy
    } else {
        HealthState::Degraded
    }
}

fn push_string(list: &mut Vec<String>, text: &str)
    ensures
        final(list)@.len() == old(list)@.len() + 1,
        forall|i: int| 0 <= i < old(list)@.len() ==> final(list)@[i] == old(list)@[i],
        final(list)@.last()@ == text@,
{
    list.push(owned(text));
}

/// The health snapshot of an index from what its store holds: the recovery
/// state, the recorded last error (read as empty when absent), the counts of
/// files, chunks and vectors, the embedding dimensions and the stored schema
/// version (the library's own when absent or unreadable).
pub fn health_snapshot(
    recovery: IndexRecoveryState,
    last_error: Option<&str>,
    file_count: u64,
    chunk_count: u64,
    vector_count: u64,
    embedding_dimensions: Option<u32>,
    stored_schema_version: Option<&str>,
) -> (snapshot: HealthSnapshot)
    ensures
        ({
            let error = match last_error {
                Some(e) => e@,
                None => Seq::empty(),
            };
            let diagnostics = health_diagnostics(recovery, error, chunk_count, vector_count);
            &&& snapshot.diagnostics@.len() == diagnostics.len()
            &&& forall|i: int|
                0 <= i < diagnostics.len() ==> #[trigger] snapshot.diagnostics@[i]@
                    == diagnostics[i]
            &&& snapshot.state == health_state_of(recovery, diagnostics.len())
        }),
        snapshot.file_count == file_count,
        snapshot.chunk_count == chunk_count,
        snapshot.embedding_dimensions == embedding_dimensions,
        snapshot.migration.schema_version == match stored_schema_version {
            Some(v) => match parsed_u32(v@) {
                Some(n) => n,
                None => SCHEMA_VERSION,
            },
            None => SCHEMA_VERSION,
        },
        snapshot.migration.pending_migrations == 0,
        snapshot.migration.recovery_required == (recovery != IndexRecoveryState::Clean),
        (snapshot.state == HealthState::Unavailable) == (recovery == IndexRecoveryState::Failed),
        (snapshot.state == HealthState::Healthy) == (recovery == IndexRecoveryState::Clean
            && !(chunk_count > 0 && vector_count == 0)),
{
    let ghost error = match last_error {
        Some(e) => e@,
        None => Seq::<char>::empty(),
    };
    let mut diagnostics: Vec<String> = Vec::new();
    match recovery {
        IndexRecoveryState::Clean => {},
        IndexRecoveryState::Running => {
            push_string(
                &mut diagnostics,
                "Index recovery state is running; a previous indexing pass may not have completed.",
            );
        },
        IndexRecoveryState::Failed => {
            let e: &str = match last_error {
                Some(e) => e,
                None => "",
            };
            proof {
                reveal_strlit("");
            }
            if e.unicode_len() == 0 {
                push_string(&mut diagnostics, "Index recovery state is failed.");
            } else {
                let mut text = owned("Index recovery state is failed: ");
                push_str(&mut text, e);
                diagnostics.push(text);
            }
        },
    }
    if chunk_count > 0 && vector_count == 0 {
        push_string(
            &mut diagnostics,
            "Chunks are indexed but no vector rows exist; semantic retrieval is unavailable.",
        );
    }
    let ghost expected = health_diagnostics(recovery, error, chunk_count, vector_count);
    assert(diagnostics@.len() == expected.len());
    assert forall|i: int| 0 <= i < expected.len() implies #[trigger] diagnostics@[i]@
        == expected[i] by {
        reveal_strlit(
            "Index recovery state is running; a previous indexing pass may not have completed.",
        );
        reveal_strlit("Index recovery state is failed.");
        reveal_strlit("Index recovery state is failed: ");
        reveal_strlit(
            "Chunks are indexed but no vector rows exist; semantic retrieval is unavailable.",
        );
    }
    let state = if recovery == IndexRecoveryState::Failed {
        HealthState::Unavailable
    } else if diagnostics.len() == 0 {
        HealthState::Healthy
    } else {
        HealthState::Degraded
    };
    let schema_version = match stored_schema_version {
        Some(v) => match parse_u32(v) {
            Some(n) => n,
            None => SCHEMA_VERSION,
        },
        None => SCHEMA_VERSION,
    };
    HealthSnapshot {
        state,
        file_count,
        chunk_count,
        embedding_dimensions,
        migration: MigrationSnapshot {
            schema_version,
            pending_migrations: 0,
            recovery_required: recovery != IndexRecoveryState::Clean,
        },
        diagnostics,
    }
}

} // verus!
