use vstd::prelude::*;

verus! {

/// Index of the last `.` in `name`, if there is one.
pub open spec fn last_dot(name: Seq<u8>) -> Option<int>
    decreases name.len(),
{
    if name.len() == 0 {
        None
    } else if name.last() == 0x2e {
        Some(name.len() - 1)
    } else {
        last_dot(name.drop_last())
    }
}

/// The bytes of `.wifi`.
pub open spec fn wifi_tag() -> Seq<u8> {
    seq![0x2eu8, 0x77, 0x69, 0x66, 0x69]
}

/// The name of the patched file: `.wifi` goes before the last extension
/// (`fw.bin` becomes `fw.wifi.bin`), or at the end when there is no `.`.
pub open spec fn out_name(name: Seq<u8>) -> Seq<u8> {
    match last_dot(name) {
        Some(i) => name.subrange(0, i) + wifi_tag() + name.subrange(i, name.len() as int),
        None => name + wifi_tag(),
    }
}

proof fn lemma_last_dot(name: Seq<u8>)
    ensures
        match last_dot(name) {
            Some(i) => 0 <= i < name.len() && name[i] == 0x2e && forall|j: int|
                i < j < name.len() ==> name[j] != 0x2e,
            None => forall|j: int| 0 <= j < name.len() ==> name[j] != 0x2e,
        },
    decreases name.len(),
{
    if name.len() > 0 {
        let rest = name.drop_last();
        lemma_last_dot(rest);
        assert forall|j: int| 0 <= j < rest.len() implies rest[j] == name[j] by {}
    }
}

/// The file name under which a patched copy of the file `file_name` (UTF-8 bytes)
/// is written by default.
pub fn default_out_name(file_name: &[u8]) -> (out: Vec<u8>)
    ensures
        out@ == out_name(file_name@),
{
    let n = file_name.len();
    let mut i = n;
    proof {
        lemma_last_dot(file_name@);
    }
    while i > 0 && file_name[i - 1] != 0x2e
        invariant
            i <= n,
            n == file_name@.len(),
            forall|j: int| i <= j < n ==> file_name@[j] != 0x2e,
        decreases i,
    {
        i = i - 1;
    }
    let mut out: Vec<u8> = Vec::new();
    let stem_end = if i > 0 {
        i - 1
    } else {
        n
    };
    let mut k: usize = 0;
    while k < stem_end
        invariant
            stem_end <= n,
            n == file_name@.len(),
            k <= stem_end,
            out@ =~= file_name@.subrange(0, k as int),
        decreases stem_end - k,
    {
        out.push(file_name[k]);
        k = k + 1;
    }
    out.push(0x2e);
    out.push(0x77);
    out.push(0x69);
    out.push(0x66);
    out.push(0x69);
    let ghost head = out@;
    let mut m: usize = stem_end;
    while m < n
        invariant
            stem_end <= m <= n,
            n == file_name@.len(),
            head == file_name@.subrange(0, stem_end as int) + wifi_tag(),
            out@ =~= head + file_name@.subrange(stem_end as int, m as int),
        decreases n - m,
    {
        out.push(file_name[m]);
        m = m + 1;
    }
    proof {
        if i > 0 {
            assert(last_dot(file_name@) == Some((i - 1) as int));
        } else {
            assert(last_dot(file_name@) is None);
            assert(file_name@.subrange(0, n as int) =~= file_name@);
            assert(file_name@.subrange(n as int, n as int) =~= Seq::<u8>::empty());
        }
    }
    out
}

} // verus!
