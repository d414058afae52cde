//! Transport handles that lead to one physical output become one display.

use vstd::prelude::*;

use crate::ddc::{bus_label, DdcCandidate, DdcDisplay, ManagedHandle};
use crate::order::{push_optional_number, push_optional_text, push_text, sort, Ranked};
use crate::text::{chars_of, decimal_text, same_text};

verus! {

/// What makes a transport handle lead to the same output as another one: the
/// fingerprint together with the connector or, where that is unknown, with the
/// bus.
#[verifier::ext_equal]
pub struct PhysicalOutput {
    pub connector: Option<Seq<char>>,
    pub i2c_bus: Option<u32>,
    pub fingerprint: Seq<u8>,
}

/// The output that a candidate leads to.
pub open spec fn output_of(candidate: crate::ddc::DdcCandidateView) -> PhysicalOutput {
    PhysicalOutput {
        connector: candidate.connector,
        i2c_bus: if candidate.connector is Some {
            None
        } else {
            candidate.handle.i2c_bus
        },
        fingerprint: candidate.fingerprint,
    }
}

/// The text by which an output is looked up.
pub open spec fn output_text(output: PhysicalOutput) -> Seq<char> {
    match output.connector {
        Some(connector) => "connector:"@ + connector + ":"@ + crate::text::hex(output.fingerprint),
        None => "bus:"@ + match output.i2c_bus {
            Some(bus) => crate::text::decimal(bus as nat),
            None => "unknown"@,
        } + ":"@ + crate::text::hex(output.fingerprint),
    }
}

/// Whether an output is one that a candidate can lead to: its bus counts only
/// where the connector is unknown, and its fingerprint has 32 bytes.
pub open spec fn possible_output(output: PhysicalOutput) -> bool {
    &&& output.connector is Some ==> output.i2c_bus is None
    &&& output.fingerprint.len() == 32
}

/// The text by which the output of a candidate is looked up.
pub fn physical_group_key(candidate: &DdcCandidate) -> (r: String)
    ensures
        r@ == output_text(output_of(candidate@)),
{
    let fingerprint = candidate.fingerprint.text();
    match &candidate.connector {
        Some(connector) => {
            "connector:".to_owned().concat(connector.as_str()).concat(":").concat(
                fingerprint.as_str(),
            )
        },
        None => {
            let bus = match candidate.handle.i2c_bus {
                Some(bus) => decimal_text(bus as u64),
                None => "unknown".to_owned(),
            };
            "bus:".to_owned().concat(bus.as_str()).concat(":").concat(fingerprint.as_str())
        },
    }
}

/// Texts with equally long ends are the same only where both their ends and
/// what stands before are.
proof fn lemma_same_ends(a: Seq<char>, x: Seq<char>, b: Seq<char>, y: Seq<char>)
    requires
        a + x == b + y,
        x.len() == y.len(),
    ensures
        a == b,
        x == y,
{
    let s = a + x;
    let t = b + y;
    assert(s.len() == a.len() + x.len());
    assert(t.len() == b.len() + y.len());
    assert(a =~= s.take(a.len() as int));
    assert(b =~= t.take(a.len() as int));
    assert(x =~= s.skip(a.len() as int));
    assert(y =~= t.skip(a.len() as int));
}

proof fn lemma_same_fronts(a: Seq<char>, x: Seq<char>, b: Seq<char>, y: Seq<char>)
    requires
        a + x == b + y,
        a.len() == b.len(),
    ensures
        a == b,
        x == y,
{
    assert((a + x).len() == a.len() + x.len());
    assert((b + y).len() == b.len() + y.len());
    lemma_same_ends(a, x, b, y);
}

/// Outputs are looked up by texts that tell them apart.
pub proof fn output_texts_tell_outputs_apart(a: PhysicalOutput, b: PhysicalOutput)
    requires
        possible_output(a),
        possible_output(b),
        output_text(a) == output_text(b),
    ensures
        a == b,
{
    reveal_strlit("connector:");
    reveal_strlit("bus:");
    reveal_strlit(":");
    reveal_strlit("unknown");
    let x = crate::text::hex(a.fingerprint);
    let y = crate::text::hex(b.fingerprint);
    assert(x.len() == 64 && y.len() == 64);
    let front_a = output_front(a);
    let front_b = output_front(b);
    assert(output_text(a) =~= front_a + ":"@ + x);
    assert(output_text(b) =~= front_b + ":"@ + y);
    lemma_same_ends(front_a + ":"@, x, front_b + ":"@, y);
    lemma_same_ends(front_a, ":"@, front_b, ":"@);
    crate::text::hex_is_injective(a.fingerprint, b.fingerprint);
    assert(front_a[0] == (if a.connector is Some {
        'c'
    } else {
        'b'
    }));
    assert(front_b[0] == (if b.connector is Some {
        'c'
    } else {
        'b'
    }));
    if a.connector is Some {
        lemma_same_fronts(
            "connector:"@,
            a.connector->Some_0,
            "connector:"@,
            b.connector->Some_0,
        );
    } else {
        lemma_same_fronts("bus:"@, bus_number_text(a.i2c_bus), "bus:"@, bus_number_text(b.i2c_bus));
        lemma_bus_numbers(a.i2c_bus, b.i2c_bus);
    }
    assert(a =~= b);
}

spec fn bus_number_text(bus: Option<u32>) -> Seq<char> {
    match bus {
        Some(bus) => crate::text::decimal(bus as nat),
        None => "unknown"@,
    }
}

spec fn output_front(output: PhysicalOutput) -> Seq<char> {
    match output.connector {
        Some(connector) => "connector:"@ + connector,
        None => "bus:"@ + bus_number_text(output.i2c_bus),
    }
}

proof fn lemma_bus_numbers(a: Option<u32>, b: Option<u32>)
    requires
        bus_number_text(a) == bus_number_text(b),
    ensures
        a == b,
{
    reveal_strlit("unknown");
    match (a, b) {
        (Some(x), Some(y)) => {
            crate::text::decimal_is_injective(x as nat, y as nat);
        },
        (Some(x), None) => {
            crate::text::decimal_denotes_its_number(x as nat);
            assert("unknown"@[0] == 'u');
        },
        (None, Some(y)) => {
            crate::text::decimal_denotes_its_number(y as nat);
            assert("unknown"@[0] == 'u');
        },
        (None, None) => {},
    }
}

/// Whether `c` is an ASCII letter or digit.
pub open spec fn ascii_alphanumeric(c: char) -> bool {
    let point = crate::text::code(c);
    48 <= point <= 57 || 65 <= point <= 90 || 97 <= point <= 122
}

/// A text with a hyphen in place of everything but ASCII letters and digits.
pub open spec fn sanitized(s: Seq<char>) -> Seq<char> {
    Seq::new(
        s.len(),
        |i: int|
            if ascii_alphanumeric(s[i]) {
                s[i]
            } else {
                '-'
            },
    )
}

fn is_ascii_alphanumeric(c: char) -> (r: bool)
    ensures
        r == ascii_alphanumeric(c),
{
    let point: u32 = c as u32;
    (48 <= point && point <= 57) || (65 <= point && point <= 90) || (97 <= point && point <= 122)
}

/// A text with a hyphen in place of everything but ASCII letters and digits.
pub fn sanitize_id_component(component: &str) -> (r: String)
    ensures
        r@ == sanitized(component@),
{
    let chars = chars_of(component);
    let mut out = String::new();
    for i in 0..chars.len()
        invariant
            chars@ == component@,
            out@ =~= sanitized(component@).take(i as int),
    {
        let c: char = chars[i];
        if is_ascii_alphanumeric(c) {
            out.push(c);
        } else {
            out.push('-');
        }
    }
    assert(out@ =~= sanitized(component@));
    out
}

/// An identifier with a number behind it.
pub open spec fn numbered(base: Seq<char>, n: nat) -> Seq<char> {
    base + "-"@ + crate::text::decimal(n)
}

/// Whether `n` is the first number from two on that leads to an identifier not
/// in use.
pub open spec fn first_free(base: Seq<char>, used: Seq<Seq<char>>, n: nat) -> bool {
    &&& n >= 2
    &&& !used.contains(numbered(base, n))
    &&& forall|k: nat| 2 <= k < n ==> used.contains(#[trigger] numbered(base, k))
}

/// An identifier not in use: the one that is wished for, else the first of its
/// numbered ones.
pub open spec fn unique_id(base: Seq<char>, used: Seq<Seq<char>>) -> Seq<char> {
    if !used.contains(base) {
        base
    } else {
        numbered(base, choose|n: nat| first_free(base, used, n))
    }
}

fn is_used(id: &String, used: &Vec<String>) -> (r: bool)
    ensures
        r == crate::model::views(used@).contains(id@),
{
    let ghost all = crate::model::views(used@);
    for i in 0..used.len()
        invariant
            all == crate::model::views(used@),
            forall|j: int| 0 <= j < i ==> all[j] != id@,
    {
        assert(all[i as int] == used@[i as int]@);
        if same_text(used[i].as_str(), id.as_str()) {
            assert(all.contains(id@));
            return true;
        }
    }
    assert(!all.contains(id@));
    false
}

proof fn lemma_numbered_differ(base: Seq<char>, m: nat, n: nat)
    requires
        numbered(base, m) == numbered(base, n),
    ensures
        m == n,
{
    let x = crate::text::decimal(m);
    let y = crate::text::decimal(n);
    lemma_same_fronts(base + "-"@, x, base + "-"@, y);
    crate::text::decimal_is_injective(m, n);
}

/// The numbered identifiers below `n`.
spec fn numbered_below(base: Seq<char>, n: nat) -> Set<Seq<char>>
    decreases n,
{
    if n <= 2 {
        Set::empty()
    } else {
        numbered_below(base, (n - 1) as nat).insert(numbered(base, (n - 1) as nat))
    }
}

proof fn lemma_numbered_below(base: Seq<char>, n: nat)
    ensures
        numbered_below(base, n).finite(),
        numbered_below(base, n).len() == (if n <= 2 {
            0
        } else {
            (n - 2) as nat
        }),
        forall|id: Seq<char>| #[trigger]
            numbered_below(base, n).contains(id) ==> exists|k: nat|
                2 <= k < n && id == numbered(base, k),
    decreases n,
{
    if n > 2 {
        let m = (n - 1) as nat;
        lemma_numbered_below(base, m);
        if numbered_below(base, m).contains(numbered(base, m)) {
            let k = choose|k: nat| 2 <= k < m && numbered(base, m) == numbered(base, k);
            lemma_numbered_differ(base, m, k);
        }
        assert forall|id: Seq<char>| #[trigger] numbered_below(base, n).contains(id) implies exists|
            k: nat,
        |
            2 <= k < n && id == numbered(base, k) by {
            if id == numbered(base, m) {
                assert(2 <= m < n);
            } else {
                assert(numbered_below(base, m).contains(id));
                let k = choose|k: nat| 2 <= k < m && id == numbered(base, k);
                assert(2 <= k < n && id == numbered(base, k));
            }
        }
    }
}

/// As many numbered identifiers as there are identifiers in use are never all
/// in use together with one more.
proof fn lemma_some_number_is_free(base: Seq<char>, used: Seq<Seq<char>>, n: nat)
    requires
        forall|k: nat| 2 <= k < n ==> used.contains(#[trigger] numbered(base, k)),
    ensures
        n <= used.len() + 2,
{
    lemma_numbered_below(base, n);
    let all = used.to_set();
    vstd::seq_lib::seq_to_set_is_finite(used);
    used.lemma_cardinality_of_set();
    assert forall|id: Seq<char>| #[trigger] numbered_below(base, n).contains(id) implies all.contains(
        id,
    ) by {
        let k = choose|k: nat| 2 <= k < n && id == numbered(base, k);
        assert(used.contains(numbered(base, k)));
    }
    vstd::set_lib::lemma_len_subset(numbered_below(base, n), all);
}

/// Takes an identifier that is not in use: the one wished for, else the first
/// of its numbered ones.
pub fn ensure_unique_id(base: String, used: &mut Vec<String>) -> (r: String)
    requires
        old(used)@.len() + 2 <= u32::MAX,
    ensures
        r@ == unique_id(base@, crate::model::views(old(used)@)),
        crate::model::views(final(used)@) == crate::model::views(old(used)@).push(r@),
{
    let ghost before = crate::model::views(used@);
    if !is_used(&base, used) {
        let taken = base.clone();
        proof {
            crate::model::views_push(used@, taken);
        }
        used.push(taken);
        return base;
    }
    let mut sequence: u32 = 2;
    loop
        invariant
            before == crate::model::views(used@),
            before == crate::model::views(old(used)@),
            before.contains(base@),
            used@.len() + 2 <= u32::MAX,
            2 <= sequence,
            forall|k: nat| 2 <= k < sequence ==> before.contains(#[trigger] numbered(base@, k)),
        decreases u32::MAX - sequence,
    {
        let candidate = base.clone().concat("-").concat(decimal_text(sequence as u64).as_str());
        assert(candidate@ == numbered(base@, sequence as nat));
        if !is_used(&candidate, used) {
            proof {
                assert(first_free(base@, before, sequence as nat));
                let n = choose|n: nat| first_free(base@, before, n);
                if n < sequence {
                    assert(before.contains(numbered(base@, n)));
                } else if sequence < n {
                    assert(before.contains(numbered(base@, sequence as nat)));
                }
            }
            let taken = candidate.clone();
            proof {
                crate::model::views_push(used@, taken);
            }
            used.push(taken);
            return candidate;
        }
        proof {
            assert forall|k: nat| 2 <= k < sequence + 1 implies before.contains(
                #[trigger] numbered(base@, k),
            ) by {
                if k == sequence {
                }
            }
            lemma_some_number_is_free(base@, before, (sequence + 1) as nat);
        }
        sequence = sequence + 1;
    }
}

/// An identifier that was taken was not in use.
pub proof fn taken_ids_are_new(base: Seq<char>, used: Seq<Seq<char>>)
    ensures
        !used.contains(unique_id(base, used)),
{
    if used.contains(base) {
        lemma_free_number_exists(base, used, 2);
    }
}

proof fn lemma_free_number_exists(base: Seq<char>, used: Seq<Seq<char>>, n: nat)
    requires
        n >= 2,
        forall|k: nat| 2 <= k < n ==> used.contains(#[trigger] numbered(base, k)),
    ensures
        exists|m: nat| first_free(base, used, m),
    decreases used.len() + 3 - n,
{
    lemma_some_number_is_free(base, used, n);
    if used.contains(numbered(base, n)) {
        assert forall|k: nat| 2 <= k < n + 1 implies used.contains(#[trigger] numbered(base, k)) by {
            if k == n {
            }
        }
        lemma_free_number_exists(base, used, n + 1);
    } else {
        assert(first_free(base, used, n));
    }
}

/// The rank of a byte string.
pub open spec fn byte_rank(bytes: Seq<u8>) -> Seq<u64> {
    Seq::new(bytes.len(), |i: int| bytes[i] as u64)
}

/// Candidates are ordered by connector, by fingerprint, by preference and by
/// bus; what is unknown comes first.
impl Ranked for DdcCandidate {
    open spec fn rank_of(v: crate::ddc::DdcCandidateView) -> Seq<u64> {
        crate::order::optional_text_rank(v.connector) + byte_rank(v.fingerprint) + (seq![
            v.preference as u64,
        ] + crate::order::optional_number_rank(v.handle.i2c_bus))
    }

    fn rank_key(&self) -> (k: Vec<u64>) {
        let mut k: Vec<u64> = Vec::new();
        push_optional_text(&mut k, &self.connector);
        let ghost start = k@;
        let ghost bytes = byte_rank(self.fingerprint@);
        let mut i: usize = 0;
        while i < 32
            invariant
                i <= 32,
                bytes == byte_rank(self.fingerprint@),
                k@ =~= start + bytes.take(i as int),
            decreases 32 - i,
        {
            k.push(self.fingerprint.bytes[i] as u64);
            i = i + 1;
        }
        k.push(self.preference as u64);
        push_optional_number(&mut k, self.handle.i2c_bus);
        assert(k@ =~= Self::rank_of(self@));
        k
    }
}

/// The outputs that candidates lead to, in the order in which they first
/// appear.
pub open spec fn outputs(candidates: Seq<crate::ddc::DdcCandidateView>) -> Seq<PhysicalOutput>
    decreases candidates.len(),
{
    if candidates.len() == 0 {
        Seq::empty()
    } else {
        let before = outputs(candidates.drop_last());
        let output = output_of(candidates.last());
        if before.contains(output) {
            before
        } else {
            before.push(output)
        }
    }
}

/// Whether a candidate leads to an output.
pub open spec fn leads_to(
    output: PhysicalOutput,
) -> spec_fn(crate::ddc::DdcCandidateView) -> bool {
    |candidate: crate::ddc::DdcCandidateView| output_of(candidate) == output
}

/// The candidates of every output, in the order of the outputs.
pub open spec fn by_output(
    candidates: Seq<crate::ddc::DdcCandidateView>,
) -> Seq<Seq<crate::ddc::DdcCandidateView>> {
    Seq::new(
        outputs(candidates).len(),
        |i: int| candidates.filter(leads_to(outputs(candidates)[i])),
    )
}

/// No output stands twice, and the output of every candidate is there.
pub proof fn outputs_are_distinct(s: Seq<crate::ddc::DdcCandidateView>)
    ensures
        outputs(s).no_duplicates(),
        outputs(s).len() <= s.len(),
        forall|i: int| 0 <= i < s.len() ==> outputs(s).contains(output_of(#[trigger] s[i])),
    decreases s.len(),
{
    if s.len() > 0 {
        let front = s.drop_last();
        outputs_are_distinct(front);
        assert forall|i: int| 0 <= i < s.len() implies outputs(s).contains(
            output_of(#[trigger] s[i]),
        ) by {
            if i < front.len() {
                assert(front[i] == s[i]);
                let k = choose|k: int|
                    0 <= k < outputs(front).len() && outputs(front)[k] == output_of(s[i]);
                assert(outputs(s)[k] == output_of(s[i]));
            } else if outputs(front).contains(output_of(s.last())) {
            } else {
                assert(outputs(s)[outputs(front).len() as int] == output_of(s[i]));
            }
        }
    }
}

proof fn lemma_nothing_leads_there(
    s: Seq<crate::ddc::DdcCandidateView>,
    output: PhysicalOutput,
)
    requires
        forall|i: int| 0 <= i < s.len() ==> output_of(#[trigger] s[i]) != output,
    ensures
        s.filter(leads_to(output)).len() == 0,
    decreases s.len(),
{
    reveal(Seq::filter);
    if s.len() > 0 {
        let front = s.drop_last();
        assert forall|i: int| 0 <= i < front.len() implies output_of(#[trigger] front[i])
            != output by {
            assert(front[i] == s[i]);
        }
        lemma_nothing_leads_there(front, output);
        assert(output_of(s[s.len() - 1]) != output);
    }
}

/// What one more candidate changes: it joins those of its output, or it is the
/// first of a new one.
proof fn lemma_one_more(
    s: Seq<crate::ddc::DdcCandidateView>,
    x: crate::ddc::DdcCandidateView,
)
    ensures
        forall|k: int|
            0 <= k < outputs(s).len() && #[trigger] outputs(s)[k] == output_of(x) ==> {
                &&& outputs(s.push(x)) == outputs(s)
                &&& by_output(s.push(x)) == by_output(s).update(k, by_output(s)[k].push(x))
            },
        !outputs(s).contains(output_of(x)) ==> {
            &&& outputs(s.push(x)) == outputs(s).push(output_of(x))
            &&& by_output(s.push(x)) == by_output(s).push(seq![x])
        },
{
    let t = s.push(x);
    assert(t.drop_last() =~= s);
    outputs_are_distinct(s);
    assert forall|i: int| 0 <= i < outputs(s).len() implies #[trigger] t.filter(
        leads_to(outputs(s)[i]),
    ) == (if outputs(s)[i] == output_of(x) {
        by_output(s)[i].push(x)
    } else {
        by_output(s)[i]
    }) by {
        crate::order::filter_push(s, x, leads_to(outputs(s)[i]));
    }
    assert forall|k: int|
        0 <= k < outputs(s).len() && #[trigger] outputs(s)[k] == output_of(x) implies {
        &&& outputs(s.push(x)) == outputs(s)
        &&& by_output(s.push(x)) == by_output(s).update(k, by_output(s)[k].push(x))
    } by {
        assert(outputs(s).contains(output_of(x)));
        assert(by_output(t) =~= by_output(s).update(k, by_output(s)[k].push(x)));
    }
    if !outputs(s).contains(output_of(x)) {
        let output = output_of(x);
        assert forall|i: int| 0 <= i < s.len() implies output_of(#[trigger] s[i]) != output by {
            assert(outputs(s).contains(output_of(s[i])));
        }
        lemma_nothing_leads_there(s, output);
        crate::order::filter_push(s, x, leads_to(output));
        assert(t.filter(leads_to(output)) =~= seq![x]);
        assert forall|i: int| 0 <= i < outputs(s).len() implies outputs(s)[i] != output by {
            assert(outputs(s).contains(outputs(s)[i]));
        }
        assert(by_output(t) =~= by_output(s).push(seq![x]));
    }
}

/// Every output has a candidate, and only candidates that lead to it.
pub proof fn candidates_lead_to_their_output(
    candidates: Seq<crate::ddc::DdcCandidateView>,
    i: int,
)
    requires
        0 <= i < by_output(candidates).len(),
    ensures
        by_output(candidates)[i].len() > 0,
        forall|j: int|
            0 <= j < by_output(candidates)[i].len() ==> output_of(
                #[trigger] by_output(candidates)[i][j],
            ) == outputs(candidates)[i] && candidates.contains(by_output(candidates)[i][j]),
    decreases candidates.len(),
{
    let s = candidates;
    let front = s.drop_last();
    let x = s.last();
    assert(front.push(x) =~= s);
    lemma_one_more(front, x);
    outputs_are_distinct(front);
    if outputs(front).contains(output_of(x)) {
        let k = outputs(front).index_of(output_of(x));
        assert(outputs(front)[k] == output_of(x));
        candidates_lead_to_their_output(front, i);
        assert forall|j: int| 0 <= j < by_output(s)[i].len() implies output_of(
            #[trigger] by_output(s)[i][j],
        ) == outputs(s)[i] && s.contains(by_output(s)[i][j]) by {
            if j < by_output(front)[i].len() {
                let c = by_output(front)[i][j];
                let p = choose|p: int| 0 <= p < front.len() && front[p] == c;
                assert(s[p] == c);
            } else {
                assert(s[s.len() - 1] == x);
            }
        }
    } else if i < outputs(front).len() {
        candidates_lead_to_their_output(front, i);
        assert forall|j: int| 0 <= j < by_output(s)[i].len() implies output_of(
            #[trigger] by_output(s)[i][j],
        ) == outputs(s)[i] && s.contains(by_output(s)[i][j]) by {
            let c = by_output(front)[i][j];
            let p = choose|p: int| 0 <= p < front.len() && front[p] == c;
            assert(s[p] == c);
        }
    } else {
        assert(s[s.len() - 1] == x);
    }
}

/// A display with the transport handles that lead to it.
#[derive(Debug)]
pub struct ManagedDisplay {
    /// The handles, the preferred one first.
    pub handles: Vec<ManagedHandle>,
    /// The position of the handle that last worked.
    pub active: usize,
    /// What was last read or written.
    pub snapshot: DdcDisplay,
}

/// What a `ManagedDisplay` says.
#[verifier::ext_equal]
pub struct ManagedDisplayView {
    pub handles: Seq<ManagedHandle>,
    pub active: usize,
    pub snapshot: crate::ddc::DdcDisplayView,
}

impl View for ManagedDisplay {
    type V = ManagedDisplayView;

    open spec fn view(&self) -> ManagedDisplayView {
        ManagedDisplayView {
            handles: self.handles@,
            active: self.active,
            snapshot: self.snapshot@,
        }
    }
}

/// Displays are ordered by connector and by identifier.
impl Ranked for ManagedDisplay {
    open spec fn rank_of(v: ManagedDisplayView) -> Seq<u64> {
        crate::order::text_rank(v.snapshot.connector) + crate::order::text_rank(v.snapshot.id)
    }

    fn rank_key(&self) -> (k: Vec<u64>) {
        let mut k: Vec<u64> = Vec::new();
        push_text(&mut k, self.snapshot.connector.as_str());
        push_text(&mut k, self.snapshot.id.as_str());
        assert(k@ =~= Self::rank_of(self@));
        k
    }
}

/// Whether another output shows the fingerprint of the output at `i`.
pub open spec fn shares_fingerprint(
    groups: Seq<Seq<crate::ddc::DdcCandidateView>>,
    i: int,
) -> bool {
    exists|j: int|
        0 <= j < groups.len() && j != i && (#[trigger] groups[j])[0].fingerprint
            == groups[i][0].fingerprint
}

/// The identifier wished for the output at `i`: its fingerprint and, where
/// another output shows the same one, the connector or the bus.
pub open spec fn wished_id(
    groups: Seq<Seq<crate::ddc::DdcCandidateView>>,
    i: int,
) -> Seq<char> {
    let primary = groups[i][0];
    let base = crate::ddc::edid_id(primary.fingerprint);
    if shares_fingerprint(groups, i) {
        base + "@"@ + match primary.connector {
            Some(connector) => sanitized(connector),
            None => crate::ddc::bus_text(primary.handle.i2c_bus),
        }
    } else {
        base
    }
}

/// The identifiers of the first `n` outputs.
pub open spec fn assigned_ids(
    groups: Seq<Seq<crate::ddc::DdcCandidateView>>,
    n: nat,
) -> Seq<Seq<char>>
    decreases n,
{
    if n == 0 {
        Seq::empty()
    } else {
        let before = assigned_ids(groups, (n - 1) as nat);
        before.push(unique_id(wished_id(groups, n - 1), before))
    }
}

/// The display that the candidates of an output make, the first of them being
/// the one in use.
pub open spec fn display_of(
    group: Seq<crate::ddc::DdcCandidateView>,
    id: Seq<char>,
) -> ManagedDisplayView {
    let primary = group[0];
    ManagedDisplayView {
        handles: Seq::new(group.len(), |i: int| group[i].handle),
        active: 0,
        snapshot: crate::ddc::DdcDisplayView {
            id,
            name: primary.name,
            connector: match primary.connector {
                Some(connector) => connector,
                None => Seq::empty(),
            },
            i2c_bus: primary.handle.i2c_bus,
            current: primary.current,
            maximum: primary.handle.maximum,
        },
    }
}

/// The displays that the outputs make, in the order of the outputs.
pub open spec fn displays_of(
    groups: Seq<Seq<crate::ddc::DdcCandidateView>>,
) -> Seq<ManagedDisplayView> {
    Seq::new(groups.len(), |i: int| display_of(groups[i], assigned_ids(groups, groups.len())[i]))
}

/// The displays that candidates make: one for every output that they lead to,
/// ordered by connector and identifier.
pub open spec fn grouped(
    candidates: Seq<crate::ddc::DdcCandidateView>,
) -> Seq<ManagedDisplayView> {
    crate::order::stably_sorted::<ManagedDisplay>(
        displays_of(by_output(crate::order::stably_sorted::<DdcCandidate>(candidates))),
    )
}

/// What is seen of groups of candidates.
pub open spec fn group_views(
    groups: Seq<Vec<DdcCandidate>>,
) -> Seq<Seq<crate::ddc::DdcCandidateView>> {
    Seq::new(groups.len(), |i: int| crate::model::views(groups[i]@))
}

/// Puts the candidates of every output together.
fn split_by_output(candidates: Vec<DdcCandidate>) -> (r: Vec<Vec<DdcCandidate>>)
    ensures
        group_views(r@) == by_output(crate::model::views(candidates@)),
        r@.len() <= candidates@.len(),
{
    let ghost all = crate::model::views(candidates@);
    let mut rest: Vec<DdcCandidate> = candidates;
    let mut groups: Vec<Vec<DdcCandidate>> = Vec::new();
    let mut keys: Vec<String> = Vec::new();
    let ghost mut done: int = 0;
    assert(all.skip(0) =~= all);
    assert(group_views(groups@) =~= by_output(all.take(0)));
    while rest.len() > 0
        invariant
            0 <= done <= all.len(),
            crate::model::views(rest@) == all.skip(done),
            group_views(groups@) == by_output(all.take(done)),
            groups@.len() == keys@.len(),
            groups@.len() <= done,
            forall|i: int|
                0 <= i < keys@.len() ==> {
                    &&& possible_output(#[trigger] outputs(all.take(done))[i])
                    &&& keys@[i]@ == output_text(outputs(all.take(done))[i])
                },
        decreases rest.len(),
    {
        let ghost before = rest@;
        let ghost s = all.take(done);
        let ghost known = outputs(s);
        assert(crate::model::views(before).len() == all.len() - done);
        assert(group_views(groups@).len() == known.len());
        let candidate = rest.remove(0);
        let ghost x = candidate@;
        proof {
            assert(crate::model::views(before)[0] == all.skip(done)[0]);
            assert(all.take(done + 1) =~= s.push(x));
            assert(crate::model::views(rest@) =~= crate::model::views(before).skip(1));
            assert(all.skip(done).skip(1) =~= all.skip(done + 1));
            lemma_one_more(s, x);
            assert(x.fingerprint.len() == 32);
        }
        let key = physical_group_key(&candidate);
        let mut k: usize = 0;
        while k < keys.len() && !same_text(keys[k].as_str(), key.as_str())
            invariant
                k <= keys@.len(),
                known.len() == keys@.len(),
                known == outputs(all.take(done)),
                key@ == output_text(output_of(x)),
                forall|i: int|
                    0 <= i < keys@.len() ==> {
                        &&& possible_output(#[trigger] known[i])
                        &&& keys@[i]@ == output_text(known[i])
                    },
                forall|i: int| 0 <= i < k ==> #[trigger] known[i] != output_of(x),
            decreases keys@.len() - k,
        {
            assert(possible_output(known[k as int]));
            k = k + 1;
        }
        let ghost earlier = groups@;
        if k < keys.len() {
            proof {
                output_texts_tell_outputs_apart(known[k as int], output_of(x));
                crate::model::views_push(groups@[k as int]@, candidate);
            }
            groups[k].push(candidate);
            assert(group_views(groups@) =~= group_views(earlier).update(
                k as int,
                group_views(earlier)[k as int].push(x),
            ));
        } else {
            let mut group: Vec<DdcCandidate> = Vec::new();
            assert(crate::model::views(group@.push(candidate)) =~= seq![x]);
            group.push(candidate);
            groups.push(group);
            keys.push(key);
            assert(group_views(groups@) =~= group_views(earlier).push(seq![x]));
            assert(!known.contains(output_of(x)));
        }
        proof {
            done = done + 1;
        }
    }
    assert(all.take(done) =~= all);
    groups
}

/// Whether another output shows the fingerprint of the output at `i`.
fn is_fingerprint_shared(groups: &Vec<Vec<DdcCandidate>>, i: usize) -> (r: bool)
    requires
        i < groups@.len(),
        forall|j: int| 0 <= j < groups@.len() ==> (#[trigger] groups@[j])@.len() > 0,
    ensures
        r == shares_fingerprint(group_views(groups@), i as int),
{
    let ghost seen = group_views(groups@);
    for j in 0..groups.len()
        invariant
            i < groups@.len(),
            seen == group_views(groups@),
            forall|j: int| 0 <= j < groups@.len() ==> (#[trigger] groups@[j])@.len() > 0,
            forall|k: int|
                0 <= k < j && k != i ==> (#[trigger] seen[k])[0].fingerprint
                    != seen[i as int][0].fingerprint,
    {
        assert(groups@[j as int]@.len() > 0 && groups@[i as int]@.len() > 0);
        assert(seen[j as int][0] == groups@[j as int]@[0]@);
        assert(seen[i as int][0] == groups@[i as int]@[0]@);
        if j != i && groups[j][0].fingerprint.same(&groups[i][0].fingerprint) {
            return true;
        }
    }
    false
}

/// The identifier wished for the output at `i`.
fn display_id(groups: &Vec<Vec<DdcCandidate>>, i: usize) -> (r: String)
    requires
        i < groups@.len(),
        forall|j: int| 0 <= j < groups@.len() ==> (#[trigger] groups@[j])@.len() > 0,
    ensures
        r@ == wished_id(group_views(groups@), i as int),
{
    assert(groups@[i as int]@.len() > 0);
    let primary = &groups[i][0];
    assert(group_views(groups@)[i as int][0] == primary@);
    let base = "edid-".to_owned().concat(primary.fingerprint.text().as_str());
    if is_fingerprint_shared(groups, i) {
        let suffix = match &primary.connector {
            Some(connector) => sanitize_id_component(connector.as_str()),
            None => bus_label(primary.handle.i2c_bus),
        };
        base.concat("@").concat(suffix.as_str())
    } else {
        base
    }
}

/// The display that the candidates of an output make.
fn display_from(group: &Vec<DdcCandidate>, id: String) -> (r: ManagedDisplay)
    requires
        group@.len() > 0,
    ensures
        r@ == display_of(crate::model::views(group@), id@),
{
    let primary = &group[0];
    let mut handles: Vec<ManagedHandle> = Vec::new();
    for i in 0..group.len()
        invariant
            handles@.len() == i,
            forall|j: int| 0 <= j < i ==> #[trigger] handles@[j] == group@[j].handle,
    {
        handles.push(group[i].handle);
    }
    let r = ManagedDisplay {
        handles,
        active: 0,
        snapshot: DdcDisplay {
            id,
            name: primary.name.clone(),
            connector: match &primary.connector {
                Some(connector) => connector.clone(),
                None => String::new(),
            },
            i2c_bus: primary.handle.i2c_bus,
            current: primary.current,
            maximum: primary.handle.maximum,
        },
    };
    proof {
        let seen = crate::model::views(group@);
        assert(seen[0] == primary@);
        assert forall|j: int| 0 <= j < seen.len() implies seen[j].handle == #[trigger] r@.handles[j] by {
            assert(seen[j] == group@[j]@);
        }
        assert(r@ =~= display_of(seen, r.snapshot.id@));
    }
    r
}

/// The displays that candidates make: one for every output that they lead to.
///
/// The handles of an output keep the order of the candidates, which puts the
/// preferred one first.
pub fn group_candidates(candidates: Vec<DdcCandidate>) -> (r: Vec<ManagedDisplay>)
    requires
        candidates@.len() + 2 <= u32::MAX,
    ensures
        crate::model::views(r@) == grouped(crate::model::views(candidates@)),
{
    proof {
        crate::order::sorting_keeps_the_values::<DdcCandidate>(crate::model::views(candidates@));
        assert(crate::model::views(candidates@).len() == candidates@.len());
    }
    let sorted = sort(candidates);
    let ghost ordered = crate::model::views(sorted@);
    assert(ordered.len() == sorted@.len());
    let groups = split_by_output(sorted);
    let ghost all = by_output(ordered);
    proof {
        assert(group_views(groups@).len() == groups@.len());
        assert forall|j: int| 0 <= j < groups@.len() implies (#[trigger] groups@[j])@.len() > 0 by {
            candidates_lead_to_their_output(ordered, j);
            assert(group_views(groups@)[j].len() == groups@[j]@.len());
        }
    }
    let mut used: Vec<String> = Vec::new();
    let mut displays: Vec<ManagedDisplay> = Vec::new();
    assert(crate::model::views(used@) =~= assigned_ids(all, 0));
    for i in 0..groups.len()
        invariant
            groups@.len() + 2 <= u32::MAX,
            all == group_views(groups@),
            forall|j: int| 0 <= j < groups@.len() ==> (#[trigger] groups@[j])@.len() > 0,
            used@.len() == i,
            crate::model::views(used@) == assigned_ids(all, i as nat),
            displays@.len() == i,
            forall|j: int|
                0 <= j < i ==> (#[trigger] displays@[j])@ == display_of(
                    all[j],
                    assigned_ids(all, i as nat)[j],
                ),
    {
        let wished = display_id(&groups, i);
        let id = ensure_unique_id(wished, &mut used);
        proof {
            let before = assigned_ids(all, i as nat);
            assert(assigned_ids(all, (i + 1) as nat) == before.push(id@));
            assert(crate::model::views(used@).len() == used@.len());
            assert(before.len() == i);
            assert(groups@[i as int]@.len() > 0);
        }
        displays.push(display_from(&groups[i], id));
    }
    assert(crate::model::views(displays@) =~= displays_of(all));
    sort(displays)
}

proof fn lemma_ids_are_distinct(groups: Seq<Seq<crate::ddc::DdcCandidateView>>, n: nat)
    ensures
        assigned_ids(groups, n).len() == n,
        assigned_ids(groups, n).no_duplicates(),
    decreases n,
{
    if n > 0 {
        let before = assigned_ids(groups, (n - 1) as nat);
        lemma_ids_are_distinct(groups, (n - 1) as nat);
        taken_ids_are_new(wished_id(groups, n - 1), before);
        let id = unique_id(wished_id(groups, n - 1), before);
        assert forall|i: int| 0 <= i < before.len() implies before[i] != id by {
            assert(before.contains(before[i]));
        }
    }
}

/// No two displays have the same identifier.
pub proof fn display_ids_are_unique(
    candidates: Seq<crate::ddc::DdcCandidateView>,
    i: int,
    j: int,
)
    requires
        0 <= i < j < grouped(candidates).len(),
    ensures
        grouped(candidates)[i].snapshot.id != grouped(candidates)[j].snapshot.id,
{
    let groups = by_output(crate::order::stably_sorted::<DdcCandidate>(candidates));
    let displays = displays_of(groups);
    let p = crate::order::sorting_permutes::<ManagedDisplay>(displays);
    lemma_ids_are_distinct(groups, groups.len());
    assert(p[i] != p[j]);
    assert(displays[p[i]].snapshot.id == assigned_ids(groups, groups.len())[p[i]]);
    assert(displays[p[j]].snapshot.id == assigned_ids(groups, groups.len())[p[j]]);
}

/// Every display has a handle, begins with its first one, and shows what that
/// one said.
pub proof fn displays_begin_with_their_first_handle(
    candidates: Seq<crate::ddc::DdcCandidateView>,
    i: int,
)
    requires
        0 <= i < grouped(candidates).len(),
    ensures
        grouped(candidates)[i].handles.len() > 0,
        grouped(candidates)[i].active == 0,
        grouped(candidates)[i].snapshot.i2c_bus == grouped(candidates)[i].handles[0].i2c_bus,
        grouped(candidates)[i].snapshot.maximum == grouped(candidates)[i].handles[0].maximum,
{
    let sorted = crate::order::stably_sorted::<DdcCandidate>(candidates);
    let groups = by_output(sorted);
    let p = crate::order::sorting_permutes::<ManagedDisplay>(displays_of(groups));
    candidates_lead_to_their_output(sorted, p[i]);
}

/// Displays come in the order of their connectors, and of their identifiers
/// where the connectors are the same.
pub proof fn displays_are_in_order(candidates: Seq<crate::ddc::DdcCandidateView>)
    ensures
        crate::order::in_order::<ManagedDisplay>(grouped(candidates)),
{
    let groups = by_output(crate::order::stably_sorted::<DdcCandidate>(candidates));
    crate::order::sorting_keeps_the_values::<ManagedDisplay>(displays_of(groups));
}

/// What orders the handles of one output: preference, then bus.
pub open spec fn handle_rank(candidate: crate::ddc::DdcCandidateView) -> Seq<u64> {
    seq![candidate.preference as u64] + crate::order::optional_number_rank(
        candidate.handle.i2c_bus,
    )
}

proof fn lemma_selection_in_order(
    s: Seq<crate::ddc::DdcCandidateView>,
    p: spec_fn(crate::ddc::DdcCandidateView) -> bool,
)
    requires
        crate::order::in_order::<DdcCandidate>(s),
    ensures
        crate::order::in_order::<DdcCandidate>(s.filter(p)),
        forall|i: int| 0 <= i < s.filter(p).len() ==> s.contains(#[trigger] s.filter(p)[i]),
    decreases s.len(),
{
    reveal(Seq::filter);
    if s.len() > 0 {
        let front = s.drop_last();
        lemma_selection_in_order(front, p);
        assert forall|i: int| 0 <= i < s.filter(p).len() implies s.contains(
            #[trigger] s.filter(p)[i],
        ) by {
            if i < front.filter(p).len() {
                let c = front.filter(p)[i];
                let k = choose|k: int| 0 <= k < front.len() && front[k] == c;
                assert(s[k] == c);
            } else {
                assert(s[s.len() - 1] == s.filter(p)[i]);
            }
        }
        assert forall|i: int, j: int|
            0 <= i < j < s.filter(p).len() implies !crate::order::precedes(
            DdcCandidate::rank_of(#[trigger] s.filter(p)[j]),
            DdcCandidate::rank_of(#[trigger] s.filter(p)[i]),
        ) by {
            let c = front.filter(p)[i];
            let k = choose|k: int| 0 <= k < front.len() && front[k] == c;
            assert(s[k] == c);
            if j < front.filter(p).len() {
                assert(s.filter(p)[j] == front.filter(p)[j]);
            } else {
                assert(s[s.len() - 1] == s.filter(p)[j]);
            }
        }
    }
}

/// Among the handles of an output, no handle stands behind one that it is
/// preferred to.
pub proof fn preferred_handles_come_first(
    candidates: Seq<crate::ddc::DdcCandidateView>,
    g: int,
    i: int,
    j: int,
)
    requires
        0 <= g < by_output(crate::order::stably_sorted::<DdcCandidate>(candidates)).len(),
        0 <= i < j < by_output(crate::order::stably_sorted::<DdcCandidate>(candidates))[g].len(),
    ensures
        !crate::order::precedes(
            handle_rank(by_output(crate::order::stably_sorted::<DdcCandidate>(candidates))[g][j]),
            handle_rank(by_output(crate::order::stably_sorted::<DdcCandidate>(candidates))[g][i]),
        ),
{
    let sorted = crate::order::stably_sorted::<DdcCandidate>(candidates);
    let group = by_output(sorted)[g];
    crate::order::sorting_keeps_the_values::<DdcCandidate>(candidates);
    lemma_selection_in_order(sorted, leads_to(outputs(sorted)[g]));
    candidates_lead_to_their_output(sorted, g);
    let a = group[i];
    let b = group[j];
    assert(output_of(a) == output_of(b));
    let front = crate::order::optional_text_rank(a.connector) + byte_rank(a.fingerprint);
    crate::order::common_front_does_not_count(front, handle_rank(b), handle_rank(a));
}

/// The handles of displays.
pub open spec fn handles_in(
    displays: Seq<ManagedDisplayView>,
) -> vstd::multiset::Multiset<ManagedHandle>
    decreases displays.len(),
{
    if displays.len() == 0 {
        vstd::multiset::Multiset::empty()
    } else {
        handles_in(displays.drop_last()).add(displays.last().handles.to_multiset())
    }
}

/// The handles of candidates.
pub open spec fn handles_of(
    candidates: Seq<crate::ddc::DdcCandidateView>,
) -> Seq<ManagedHandle> {
    Seq::new(candidates.len(), |i: int| candidates[i].handle)
}

spec fn group_handles(
    groups: Seq<Seq<crate::ddc::DdcCandidateView>>,
) -> vstd::multiset::Multiset<ManagedHandle>
    decreases groups.len(),
{
    if groups.len() == 0 {
        vstd::multiset::Multiset::empty()
    } else {
        group_handles(groups.drop_last()).add(handles_of(groups.last()).to_multiset())
    }
}

proof fn lemma_handles_push(
    s: Seq<crate::ddc::DdcCandidateView>,
    x: crate::ddc::DdcCandidateView,
)
    ensures
        handles_of(s.push(x)).to_multiset() =~= handles_of(s).to_multiset().insert(x.handle),
{
    broadcast use vstd::seq_lib::group_to_multiset_ensures;

    assert(handles_of(s.push(x)) =~= handles_of(s).push(x.handle));
}

proof fn lemma_group_grows(
    groups: Seq<Seq<crate::ddc::DdcCandidateView>>,
    k: int,
    x: crate::ddc::DdcCandidateView,
)
    requires
        0 <= k < groups.len(),
    ensures
        group_handles(groups.update(k, groups[k].push(x))) =~= group_handles(groups).insert(
            x.handle,
        ),
    decreases groups.len(),
{
    let grown = groups.update(k, groups[k].push(x));
    if k == groups.len() - 1 {
        assert(grown.drop_last() =~= groups.drop_last());
        lemma_handles_push(groups[k], x);
    } else {
        assert(grown.drop_last() =~= groups.drop_last().update(k, groups.drop_last()[k].push(x)));
        lemma_group_grows(groups.drop_last(), k, x);
    }
}

proof fn lemma_groups_hold_all(s: Seq<crate::ddc::DdcCandidateView>)
    ensures
        group_handles(by_output(s)) =~= handles_of(s).to_multiset(),
    decreases s.len(),
{
    broadcast use vstd::seq_lib::group_to_multiset_ensures;

    if s.len() == 0 {
        assert(by_output(s) =~= Seq::empty());
        assert(handles_of(s) =~= Seq::empty());
    } else {
        let front = s.drop_last();
        let x = s.last();
        assert(front.push(x) =~= s);
        lemma_groups_hold_all(front);
        lemma_one_more(front, x);
        lemma_handles_push(front, x);
        let groups = by_output(front);
        if outputs(front).contains(output_of(x)) {
            let k = outputs(front).index_of(output_of(x));
            assert(outputs(front)[k] == output_of(x));
            lemma_group_grows(groups, k, x);
        } else {
            assert(groups.push(seq![x]).drop_last() =~= groups);
            assert(handles_of(seq![x]) =~= Seq::<ManagedHandle>::empty().push(x.handle));
        }
    }
}

proof fn lemma_displays_hold_group_handles(
    groups: Seq<Seq<crate::ddc::DdcCandidateView>>,
    ids: Seq<Seq<char>>,
)
    ensures
        handles_in(Seq::new(groups.len(), |i: int| display_of(groups[i], ids[i])))
            == group_handles(groups),
    decreases groups.len(),
{
    let displays = Seq::new(groups.len(), |i: int| display_of(groups[i], ids[i]));
    if groups.len() > 0 {
        let front = groups.drop_last();
        lemma_displays_hold_group_handles(front, ids);
        assert(displays.drop_last() =~= Seq::new(front.len(), |i: int| display_of(front[i], ids[i])));
        assert(displays.last().handles =~= handles_of(groups.last()));
    }
}

proof fn lemma_placed_handles(sorted: Seq<ManagedDisplayView>, x: ManagedDisplayView)
    ensures
        handles_in(crate::order::placed::<ManagedDisplay>(sorted, x)) =~= handles_in(sorted).add(
            x.handles.to_multiset(),
        ),
    decreases sorted.len(),
{
    let placed = crate::order::placed::<ManagedDisplay>(sorted, x);
    if sorted.len() == 0 || !crate::order::precedes(
        ManagedDisplay::rank_of(x),
        ManagedDisplay::rank_of(sorted.last()),
    ) {
        assert(placed.drop_last() =~= sorted);
    } else {
        lemma_placed_handles(sorted.drop_last(), x);
        assert(placed.drop_last() =~= crate::order::placed::<ManagedDisplay>(
            sorted.drop_last(),
            x,
        ));
    }
}

proof fn lemma_sorted_handles(s: Seq<ManagedDisplayView>)
    ensures
        handles_in(crate::order::stably_sorted::<ManagedDisplay>(s)) =~= handles_in(s),
    decreases s.len(),
{
    if s.len() > 0 {
        lemma_sorted_handles(s.drop_last());
        lemma_placed_handles(
            crate::order::stably_sorted::<ManagedDisplay>(s.drop_last()),
            s.last(),
        );
    }
}

/// The displays have exactly the handles of the candidates: grouping loses none
/// and adds none.
pub proof fn no_handle_is_lost(candidates: Seq<crate::ddc::DdcCandidateView>)
    ensures
        handles_in(grouped(candidates)) == handles_of(candidates).to_multiset(),
{
    broadcast use vstd::seq_lib::group_to_multiset_ensures;

    let sorted = crate::order::stably_sorted::<DdcCandidate>(candidates);
    let groups = by_output(sorted);
    lemma_sorted_handles(displays_of(groups));
    lemma_displays_hold_group_handles(groups, assigned_ids(groups, groups.len()));
    lemma_groups_hold_all(sorted);
    lemma_handles_of_sorted(candidates);
}

proof fn lemma_handles_of_placed(
    sorted: Seq<crate::ddc::DdcCandidateView>,
    x: crate::ddc::DdcCandidateView,
)
    ensures
        handles_of(crate::order::placed::<DdcCandidate>(sorted, x)).to_multiset() =~= handles_of(
            sorted,
        ).to_multiset().insert(x.handle),
    decreases sorted.len(),
{
    lemma_handles_push(sorted, x);
    if sorted.len() == 0 || !crate::order::precedes(
        DdcCandidate::rank_of(x),
        DdcCandidate::rank_of(sorted.last()),
    ) {
    } else {
        let front = sorted.drop_last();
        lemma_handles_of_placed(front, x);
        lemma_handles_push(crate::order::placed::<DdcCandidate>(front, x), sorted.last());
        lemma_handles_push(front, sorted.last());
        assert(front.push(sorted.last()) =~= sorted);
    }
}

proof fn lemma_handles_of_sorted(s: Seq<crate::ddc::DdcCandidateView>)
    ensures
        handles_of(crate::order::stably_sorted::<DdcCandidate>(s)).to_multiset() == handles_of(
            s,
        ).to_multiset(),
    decreases s.len(),
{
    if s.len() > 0 {
        let front = s.drop_last();
        lemma_handles_of_sorted(front);
        lemma_handles_of_placed(crate::order::stably_sorted::<DdcCandidate>(front), s.last());
        lemma_handles_push(front, s.last());
        assert(front.push(s.last()) =~= s);
    } else {
        assert(crate::order::stably_sorted::<DdcCandidate>(s) =~= s);
    }
}

/// Every output that candidates lead to is one display.
pub proof fn every_output_is_one_display(candidates: Seq<crate::ddc::DdcCandidateView>)
    ensures
        grouped(candidates).len() == outputs(
            crate::order::stably_sorted::<DdcCandidate>(candidates),
        ).len(),
        outputs(crate::order::stably_sorted::<DdcCandidate>(candidates)).no_duplicates(),
{
    let sorted = crate::order::stably_sorted::<DdcCandidate>(candidates);
    outputs_are_distinct(sorted);
    crate::order::sorting_keeps_the_values::<ManagedDisplay>(displays_of(by_output(sorted)));
}

proof fn lemma_begins(front: Seq<char>, rest: Seq<char>)
    ensures
        crate::text::begins_with(front + rest, front),
{
    assert((front + rest).take(front.len() as int) =~= front);
}

proof fn lemma_begins_longer(s: Seq<char>, front: Seq<char>, rest: Seq<char>)
    requires
        crate::text::begins_with(s, front),
    ensures
        crate::text::begins_with(s + rest, front),
{
    assert((s + rest).take(front.len() as int) =~= s.take(front.len() as int));
}

proof fn lemma_wished_id_begins(groups: Seq<Seq<crate::ddc::DdcCandidateView>>, i: int)
    ensures
        crate::text::begins_with(wished_id(groups, i), crate::ddc::edid_id(groups[i][0].fingerprint)),
{
    let primary = groups[i][0];
    let base = crate::ddc::edid_id(primary.fingerprint);
    let suffix = match primary.connector {
        Some(connector) => sanitized(connector),
        None => crate::ddc::bus_text(primary.handle.i2c_bus),
    };
    lemma_begins(base, Seq::empty());
    assert(base + Seq::<char>::empty() =~= base);
    lemma_begins_longer(base, base, "@"@);
    lemma_begins_longer(base + "@"@, base, suffix);
}

proof fn lemma_assigned_id_begins(
    groups: Seq<Seq<crate::ddc::DdcCandidateView>>,
    n: nat,
    i: int,
)
    requires
        0 <= i < n,
    ensures
        assigned_ids(groups, n).len() == n,
        crate::text::begins_with(assigned_ids(groups, n)[i], crate::ddc::edid_id(groups[i][0].fingerprint)),
    decreases n,
{
    let before = assigned_ids(groups, (n - 1) as nat);
    lemma_ids_are_distinct(groups, (n - 1) as nat);
    lemma_ids_are_distinct(groups, n);
    if i < n - 1 {
        lemma_assigned_id_begins(groups, (n - 1) as nat, i);
        assert(assigned_ids(groups, n)[i] == before[i]);
    } else {
        let wished = wished_id(groups, i);
        let base = crate::ddc::edid_id(groups[i][0].fingerprint);
        lemma_wished_id_begins(groups, i);
        if before.contains(wished) {
            let k = choose|k: nat| first_free(wished, before, k);
            lemma_begins_longer(wished, base, "-"@);
            lemma_begins_longer(wished + "-"@, base, crate::text::decimal(k));
        }
    }
}

proof fn lemma_edid_ids(a: Seq<u8>, b: Seq<u8>)
    requires
        a.len() == 32,
        b.len() == 32,
        crate::text::begins_with(crate::ddc::edid_id(a), crate::ddc::edid_id(b)),
    ensures
        a == b,
{
    let x = crate::ddc::edid_id(a);
    let y = crate::ddc::edid_id(b);
    assert(crate::text::hex(a).len() == 64 && crate::text::hex(b).len() == 64);
    assert(x.len() == "edid-"@.len() + 64 && y.len() == "edid-"@.len() + 64);
    assert(x.take(y.len() as int) =~= x);
    lemma_same_fronts("edid-"@, crate::text::hex(a), "edid-"@, crate::text::hex(b));
    crate::text::hex_is_injective(a, b);
}

/// Identifiers come from the EDID: that of every output begins with the
/// fingerprint, and where no other output shows the same one, it is the
/// fingerprint alone, whatever connector or bus the monitor is found on.
pub proof fn ids_come_from_the_edid(candidates: Seq<crate::ddc::DdcCandidateView>, i: int)
    requires
        forall|k: int| 0 <= k < candidates.len() ==> (#[trigger] candidates[k]).fingerprint.len() == 32,
        0 <= i < by_output(candidates).len(),
    ensures
        ({
            let groups = by_output(candidates);
            let id = displays_of(groups)[i].snapshot.id;
            let plain = crate::ddc::edid_id(groups[i][0].fingerprint);
            &&& crate::text::begins_with(id, plain)
            &&& !shares_fingerprint(groups, i) ==> id == plain
        }),
{
    let groups = by_output(candidates);
    let n = groups.len();
    lemma_assigned_id_begins(groups, n, i);
    if !shares_fingerprint(groups, i) {
        let plain = crate::ddc::edid_id(groups[i][0].fingerprint);
        let before = assigned_ids(groups, i as nat);
        lemma_ids_are_distinct(groups, i as nat);
        if before.contains(plain) {
            let j = choose|j: int| 0 <= j < before.len() && before[j] == plain;
            lemma_assigned_id_begins(groups, i as nat, j);
            candidates_lead_to_their_output(candidates, i);
            candidates_lead_to_their_output(candidates, j);
            assert(groups[i][0].fingerprint.len() == 32) by {
                let c = groups[i][0];
                let k = choose|k: int| 0 <= k < candidates.len() && candidates[k] == c;
                assert(candidates[k].fingerprint.len() == 32);
            }
            assert(groups[j][0].fingerprint.len() == 32) by {
                let c = groups[j][0];
                let k = choose|k: int| 0 <= k < candidates.len() && candidates[k] == c;
                assert(candidates[k].fingerprint.len() == 32);
            }
            lemma_edid_ids(groups[i][0].fingerprint, groups[j][0].fingerprint);
        }
        lemma_ids_grow(groups, (i + 1) as nat, n, i);
        assert(assigned_ids(groups, (i + 1) as nat)[i] == plain);
    }
}

proof fn lemma_ids_grow(
    groups: Seq<Seq<crate::ddc::DdcCandidateView>>,
    m: nat,
    n: nat,
    i: int,
)
    requires
        0 <= i < m <= n,
    ensures
        assigned_ids(groups, m)[i] == assigned_ids(groups, n)[i],
    decreases n,
{
    if m < n {
        lemma_ids_grow(groups, m, (n - 1) as nat, i);
        lemma_ids_are_distinct(groups, (n - 1) as nat);
    }
}

/// Whether two candidates are one transport, at whatever levels.
pub open spec fn same_transport(
    a: crate::ddc::DdcCandidateView,
    b: crate::ddc::DdcCandidateView,
) -> bool {
    &&& a.handle.slot == b.handle.slot
    &&& a.handle.i2c_bus == b.handle.i2c_bus
    &&& a.fingerprint == b.fingerprint
    &&& a.connector == b.connector
    &&& a.preference == b.preference
    &&& a.name == b.name
}

/// Whether two lists of candidates are the same transports, at whatever levels.
pub open spec fn same_transports(
    a: Seq<crate::ddc::DdcCandidateView>,
    b: Seq<crate::ddc::DdcCandidateView>,
) -> bool {
    &&& a.len() == b.len()
    &&& forall|i: int| 0 <= i < a.len() ==> same_transport(#[trigger] a[i], b[i])
}

/// Whether two displays are one monitor behind the same transports, at whatever
/// levels.
pub open spec fn same_monitor(a: ManagedDisplayView, b: ManagedDisplayView) -> bool {
    &&& a.snapshot.id == b.snapshot.id
    &&& a.snapshot.name == b.snapshot.name
    &&& a.snapshot.connector == b.snapshot.connector
    &&& a.handles.len() == b.handles.len()
    &&& forall|h: int|
        0 <= h < a.handles.len() ==> (#[trigger] a.handles[h]).slot == b.handles[h].slot
}

proof fn lemma_outputs_of_transports(
    a: Seq<crate::ddc::DdcCandidateView>,
    b: Seq<crate::ddc::DdcCandidateView>,
)
    requires
        same_transports(a, b),
    ensures
        outputs(a) == outputs(b),
    decreases a.len(),
{
    if a.len() > 0 {
        assert(same_transport(a[a.len() - 1], b[a.len() - 1]));
        assert forall|i: int| 0 <= i < a.len() - 1 implies same_transport(
            #[trigger] a.drop_last()[i],
            b.drop_last()[i],
        ) by {
            assert(same_transport(a[i], b[i]));
        }
        lemma_outputs_of_transports(a.drop_last(), b.drop_last());
    }
}

proof fn lemma_transports_of_output(
    a: Seq<crate::ddc::DdcCandidateView>,
    b: Seq<crate::ddc::DdcCandidateView>,
    output: PhysicalOutput,
)
    requires
        same_transports(a, b),
    ensures
        same_transports(a.filter(leads_to(output)), b.filter(leads_to(output))),
    decreases a.len(),
{
    let p = leads_to(output);
    if a.len() > 0 {
        let front = a.drop_last();
        let other = b.drop_last();
        assert(same_transport(a[a.len() - 1], b[a.len() - 1]));
        assert forall|i: int| 0 <= i < front.len() implies same_transport(
            #[trigger] front[i],
            other[i],
        ) by {
            assert(same_transport(a[i], b[i]));
        }
        lemma_transports_of_output(front, other, output);
        crate::order::filter_push(front, a.last(), p);
        crate::order::filter_push(other, b.last(), p);
        assert(a =~= front.push(a.last()));
        assert(b =~= other.push(b.last()));
        let x = a.filter(p);
        let y = b.filter(p);
        assert forall|i: int| 0 <= i < x.len() implies same_transport(
            #[trigger] x[i],
            y[i],
        ) by {
            if i < front.filter(p).len() {
                assert(same_transport(front.filter(p)[i], other.filter(p)[i]));
            }
        }
    } else {
        assert(a =~= Seq::empty());
        assert(b =~= Seq::empty());
    }
}

proof fn lemma_ids_of_transports(
    a: Seq<Seq<crate::ddc::DdcCandidateView>>,
    b: Seq<Seq<crate::ddc::DdcCandidateView>>,
    n: nat,
)
    requires
        a.len() == b.len(),
        n <= a.len(),
        forall|i: int|
            0 <= i < a.len() ==> a[i].len() > 0 && same_transports(#[trigger] a[i], b[i]),
    ensures
        assigned_ids(a, n) == assigned_ids(b, n),
    decreases n,
{
    if n > 0 {
        lemma_ids_of_transports(a, b, (n - 1) as nat);
        let i = n - 1;
        assert forall|j: int| 0 <= j < a.len() implies (#[trigger] a[j])[0].fingerprint
            == b[j][0].fingerprint && a[j][0].connector == b[j][0].connector
            && a[j][0].handle.i2c_bus == b[j][0].handle.i2c_bus by {
            assert(same_transport(a[j][0], b[j][0]));
        }
        if shares_fingerprint(a, i) {
            let j = choose|j: int|
                0 <= j < a.len() && j != i && (#[trigger] a[j])[0].fingerprint
                    == a[i][0].fingerprint;
            assert(b[j][0].fingerprint == b[i][0].fingerprint);
        }
        if shares_fingerprint(b, i) {
            let j = choose|j: int|
                0 <= j < b.len() && j != i && (#[trigger] b[j])[0].fingerprint
                    == b[i][0].fingerprint;
            assert(a[j][0].fingerprint == a[i][0].fingerprint);
        }
        assert(wished_id(a, i) == wished_id(b, i));
    }
}

/// Readings do not move displays: from the same transports come the same
/// displays in the same order, whatever the monitors read. Each shows what its
/// first transport reads.
pub proof fn readings_do_not_move_displays(
    a: Seq<crate::ddc::DdcCandidateView>,
    b: Seq<crate::ddc::DdcCandidateView>,
)
    requires
        same_transports(a, b),
    ensures
        grouped(a).len() == grouped(b).len(),
        forall|x: int|
            0 <= x < grouped(a).len() ==> same_monitor(#[trigger] grouped(a)[x], grouped(b)[x]),
        forall|x: int|
            0 <= x < grouped(b).len() ==> exists|m: int|
                0 <= m < b.len() && (#[trigger] b[m]).handle == grouped(b)[x].handles[0]
                    && b[m].current == (#[trigger] grouped(b)[x]).snapshot.current
                    && b[m].handle.maximum == grouped(b)[x].snapshot.maximum,
{
    assert forall|i: int| 0 <= i < a.len() implies DdcCandidate::rank_of(#[trigger] a[i])
        == DdcCandidate::rank_of(b[i]) by {
        assert(same_transport(a[i], b[i]));
    }
    let p = crate::order::sorting_goes_by_rank::<DdcCandidate>(a, b);
    let s = crate::order::stably_sorted::<DdcCandidate>(a);
    let t = crate::order::stably_sorted::<DdcCandidate>(b);
    assert forall|i: int| 0 <= i < s.len() implies same_transport(#[trigger] s[i], t[i]) by {
        assert(0 <= p[i] < a.len());
        assert(same_transport(a[p[i]], b[p[i]]));
    }
    lemma_outputs_of_transports(s, t);
    let groups = by_output(s);
    let others = by_output(t);
    assert forall|i: int| 0 <= i < groups.len() implies groups[i].len() > 0 && same_transports(
        #[trigger] groups[i],
        others[i],
    ) by {
        lemma_transports_of_output(s, t, outputs(s)[i]);
        candidates_lead_to_their_output(s, i);
    }
    lemma_ids_of_transports(groups, others, groups.len());
    let made = displays_of(groups);
    let remade = displays_of(others);
    assert forall|i: int| 0 <= i < made.len() implies same_monitor(#[trigger] made[i], remade[i]) by {
        assert(same_transports(groups[i], others[i]));
        assert(same_transport(groups[i][0], others[i][0]));
        assert forall|h: int| 0 <= h < made[i].handles.len() implies (
        #[trigger] made[i].handles[h]).slot == remade[i].handles[h].slot by {
            assert(same_transport(groups[i][h], others[i][h]));
        }
    }
    assert forall|i: int| 0 <= i < made.len() implies ManagedDisplay::rank_of(#[trigger] made[i])
        == ManagedDisplay::rank_of(remade[i]) by {
        assert(same_monitor(made[i], remade[i]));
    }
    let q = crate::order::sorting_goes_by_rank::<ManagedDisplay>(made, remade);
    assert forall|x: int| 0 <= x < grouped(a).len() implies same_monitor(
        #[trigger] grouped(a)[x],
        grouped(b)[x],
    ) by {
        assert(0 <= q[x] < made.len());
        assert(same_monitor(made[q[x]], remade[q[x]]));
    }
    assert forall|x: int| 0 <= x < grouped(b).len() implies exists|m: int|
        0 <= m < b.len() && (#[trigger] b[m]).handle == grouped(b)[x].handles[0] && b[m].current
            == (#[trigger] grouped(b)[x]).snapshot.current && b[m].handle.maximum == grouped(
            b,
        )[x].snapshot.maximum by {
        let i = q[x];
        assert(grouped(b)[x] == remade[i]);
        candidates_lead_to_their_output(t, i);
        let primary = others[i][0];
        assert(t.contains(primary));
        crate::order::sorting_keeps_membership::<DdcCandidate>(b, primary);
        let m = choose|m: int| 0 <= m < b.len() && b[m] == primary;
        assert(b[m].handle == grouped(b)[x].handles[0]);
    }
}

/// Whether two probes found one monitor behind one transport, at whatever
/// levels: both read a brightness, or neither does.
pub open spec fn same_probe(a: crate::ddc::Probe, b: crate::ddc::Probe) -> bool {
    &&& a.slot == b.slot
    &&& a.info.id@ == b.info.id@
    &&& crate::model::seen(a.info.manufacturer_id) == crate::model::seen(b.info.manufacturer_id)
    &&& a.info.model_id == b.info.model_id
    &&& crate::model::seen(a.info.model_name) == crate::model::seen(b.info.model_name)
    &&& crate::model::seen(a.info.edid_data) == crate::model::seen(b.info.edid_data)
    &&& reads(a) == reads(b)
}

/// Whether a probe has read a brightness with a range.
pub open spec fn reads(probe: crate::ddc::Probe) -> bool {
    probe.reading matches Some(value) && value.maximum_value() != 0
}

/// Probes that found the same monitors make candidates of the same transports,
/// each at the level that was read.
pub proof fn probes_make_the_same_candidates(
    connectors: Seq<crate::drm::DrmConnectorView>,
    a: Seq<crate::ddc::Probe>,
    b: Seq<crate::ddc::Probe>,
)
    requires
        a.len() == b.len(),
        forall|q: int| 0 <= q < a.len() ==> same_probe(#[trigger] a[q], b[q]),
    ensures
        ({
            let made = crate::ddc::candidates_of(connectors, b);
            &&& same_transports(crate::ddc::candidates_of(connectors, a), made)
            &&& forall|m: int|
                0 <= m < made.len() ==> exists|q: int|
                    0 <= q < b.len() && crate::ddc::candidate_of(connectors, #[trigger] b[q])
                        == Some(#[trigger] made[m])
        }),
    decreases a.len(),
{
    if a.len() > 0 {
        let last = a.len() - 1;
        let front = a.drop_last();
        let other = b.drop_last();
        assert(same_probe(a[last], b[last]));
        assert forall|q: int| 0 <= q < front.len() implies same_probe(
            #[trigger] front[q],
            other[q],
        ) by {
            assert(same_probe(a[q], b[q]));
        }
        probes_make_the_same_candidates(connectors, front, other);
        let before = crate::ddc::candidates_of(connectors, front);
        let found = crate::ddc::candidates_of(connectors, other);
        let whole = crate::ddc::candidates_of(connectors, a);
        let made = crate::ddc::candidates_of(connectors, b);
        assert(a[last].info.fingerprint() == b[last].info.fingerprint());
        assert(a[last].info.bus() == b[last].info.bus());
        assert forall|id: Seq<char>| #[trigger]
            crate::ddc::monitor_name(&a[last].info, id) == crate::ddc::monitor_name(
                &b[last].info,
                id,
            ) by {}
        assert forall|m: int| 0 <= m < whole.len() implies same_transport(
            #[trigger] whole[m],
            made[m],
        ) by {
            if m < before.len() {
                assert(same_transport(before[m], found[m]));
            }
        }
        assert forall|m: int| 0 <= m < made.len() implies exists|q: int|
            0 <= q < b.len() && crate::ddc::candidate_of(connectors, #[trigger] b[q]) == Some(
                #[trigger] made[m],
            ) by {
            if m < found.len() {
                assert(made[m] == found[m]);
                let q = choose|q: int|
                    0 <= q < other.len() && crate::ddc::candidate_of(
                        connectors,
                        #[trigger] other[q],
                    ) == Some(found[m]);
                assert(b[q] == other[q]);
            } else {
                assert(crate::ddc::candidate_of(connectors, b[last]) == Some(made[m]));
            }
        }
    }
}

/// Whether two candidates lead to one physical output: they have one EDID
/// fingerprint and one connector or, without a connector, one bus.
pub open spec fn same_output(
    a: crate::ddc::DdcCandidateView,
    b: crate::ddc::DdcCandidateView,
) -> bool {
    &&& a.fingerprint == b.fingerprint
    &&& a.connector == b.connector
    &&& a.connector is None ==> a.handle.i2c_bus == b.handle.i2c_bus
}

proof fn lemma_group(sorted: Seq<crate::ddc::DdcCandidateView>, g: int)
    requires
        0 <= g < by_output(sorted).len(),
    ensures
        by_output(sorted)[g].len() > 0,
        forall|c: crate::ddc::DdcCandidateView| #[trigger]
            by_output(sorted)[g].contains(c) <==> sorted.contains(c) && same_output(
                c,
                by_output(sorted)[g][0],
            ),
{
    let group = by_output(sorted)[g];
    let output = outputs(sorted)[g];
    candidates_lead_to_their_output(sorted, g);
    assert(output_of(group[0]) == output);
    assert forall|c: crate::ddc::DdcCandidateView| #[trigger]
        group.contains(c) <==> sorted.contains(c) && same_output(c, group[0]) by {
        if group.contains(c) {
            let j = choose|j: int| 0 <= j < group.len() && group[j] == c;
            assert(output_of(group[j]) == output);
        }
        if sorted.contains(c) && same_output(c, group[0]) {
            assert(output_of(c) =~= output_of(group[0]));
            assert(leads_to(output)(c));
            sorted.lemma_filter_contains_rev(leads_to(output), c);
        }
    }
}

/// Every display stands for one physical output: its handles are those of the
/// candidates that lead to it, in the order of preference and then of buses, and
/// it shows what the first of them has read.
pub proof fn displays_stand_for_one_output(
    candidates: Seq<crate::ddc::DdcCandidateView>,
    i: int,
) -> (group: Seq<crate::ddc::DdcCandidateView>)
    requires
        0 <= i < grouped(candidates).len(),
    ensures
        ({
            let display = grouped(candidates)[i];
            &&& group.len() > 0
            &&& display.handles.len() == group.len()
            &&& forall|j: int|
                0 <= j < group.len() ==> #[trigger] display.handles[j] == group[j].handle
            &&& forall|c: crate::ddc::DdcCandidateView| #[trigger]
                group.contains(c) <==> candidates.contains(c) && same_output(c, group[0])
            &&& forall|a: int, b: int|
                0 <= a < b < group.len() ==> {
                    &&& (#[trigger] group[a]).preference <= (#[trigger] group[b]).preference
                    &&& group[a].preference == group[b].preference ==> match (
                        group[a].handle.i2c_bus,
                        group[b].handle.i2c_bus,
                    ) {
                        (Some(first), Some(second)) => first <= second,
                        (Some(_), None) => false,
                        (None, _) => true,
                    }
                }
            &&& display.active == 0
            &&& display.snapshot.name == group[0].name
            &&& group[0].connector matches Some(connector) ==> display.snapshot.connector
                == connector
            &&& group[0].connector is None ==> display.snapshot.connector.len() == 0
            &&& display.snapshot.i2c_bus == group[0].handle.i2c_bus
            &&& display.snapshot.current == group[0].current
            &&& display.snapshot.maximum == group[0].handle.maximum
        }),
{
    let sorted = crate::order::stably_sorted::<DdcCandidate>(candidates);
    let groups = by_output(sorted);
    let p = crate::order::sorting_permutes::<ManagedDisplay>(displays_of(groups));
    let g = p[i];
    let group = groups[g];
    lemma_group(sorted, g);
    assert(grouped(candidates)[i] == display_of(group, assigned_ids(groups, groups.len())[g]));
    lemma_sorted_holds(candidates);
    assert forall|c: crate::ddc::DdcCandidateView| #[trigger]
        group.contains(c) <==> candidates.contains(c) && same_output(c, group[0]) by {
        assert(sorted.contains(c) == candidates.contains(c));
    }
    assert forall|a: int, b: int| 0 <= a < b < group.len() implies {
        &&& (#[trigger] group[a]).preference <= (#[trigger] group[b]).preference
        &&& group[a].preference == group[b].preference ==> match (
            group[a].handle.i2c_bus,
            group[b].handle.i2c_bus,
        ) {
            (Some(first), Some(second)) => first <= second,
            (Some(_), None) => false,
            (None, _) => true,
        }
    } by {
        preferred_handles_come_first(candidates, g, a, b);
        let x = handle_rank(group[a]);
        let y = handle_rank(group[b]);
        assert(x[0] == group[a].preference && y[0] == group[b].preference);
        if y[0] < x[0] {
            crate::order::the_first_difference_decides(y, x, 0);
        }
        if y[0] == x[0] {
            let first = crate::order::optional_number_rank(group[a].handle.i2c_bus);
            let second = crate::order::optional_number_rank(group[b].handle.i2c_bus);
            assert(x[1] == first[0] && y[1] == second[0]);
            if y[1] < x[1] {
                crate::order::the_first_difference_decides(y, x, 1);
            }
            if group[a].handle.i2c_bus is Some && group[b].handle.i2c_bus is Some {
                assert(x[2] == first[1] && y[2] == second[1]);
                if y[2] < x[2] {
                    crate::order::the_first_difference_decides(y, x, 2);
                }
            }
        }
    }
    group
}

proof fn lemma_sorted_holds(candidates: Seq<crate::ddc::DdcCandidateView>)
    ensures
        forall|c: crate::ddc::DdcCandidateView| #[trigger]
            crate::order::stably_sorted::<DdcCandidate>(candidates).contains(c)
                == candidates.contains(c),
{
    let sorted = crate::order::stably_sorted::<DdcCandidate>(candidates);
    assert forall|c: crate::ddc::DdcCandidateView| #[trigger]
        sorted.contains(c) == candidates.contains(c) by {
        crate::order::sorting_keeps_membership::<DdcCandidate>(candidates, c);
    }
}

/// Every candidate is a handle of the display that stands for its output.
pub proof fn candidates_become_handles(
    candidates: Seq<crate::ddc::DdcCandidateView>,
    k: int,
) -> (r: (int, int))
    requires
        0 <= k < candidates.len(),
    ensures
        0 <= r.0 < grouped(candidates).len(),
        0 <= r.1 < grouped(candidates)[r.0].handles.len(),
        grouped(candidates)[r.0].handles[r.1] == candidates[k].handle,
        candidates[k].connector matches Some(connector)
            ==> grouped(candidates)[r.0].snapshot.connector == connector,
        candidates[k].connector is None ==> grouped(candidates)[r.0].snapshot.connector.len() == 0,
{
    let c = candidates[k];
    let sorted = crate::order::stably_sorted::<DdcCandidate>(candidates);
    let groups = by_output(sorted);
    let all = displays_of(groups);
    lemma_sorted_holds(candidates);
    assert(candidates.contains(c));
    assert(sorted.contains(c));
    outputs_are_distinct(sorted);
    let m = choose|m: int| 0 <= m < sorted.len() && sorted[m] == c;
    assert(outputs(sorted).contains(output_of(sorted[m])));
    let g = choose|g: int| 0 <= g < outputs(sorted).len() && outputs(sorted)[g] == output_of(c);
    assert(outputs(sorted)[g] == output_of(c));
    let group = groups[g];
    lemma_group(sorted, g);
    candidates_lead_to_their_output(sorted, g);
    assert(output_of(group[0]) == outputs(sorted)[g]);
    assert(same_output(c, group[0]));
    assert(group.contains(c));
    let j = choose|j: int| 0 <= j < group.len() && group[j] == c;
    let display = all[g];
    assert(display.handles[j] == c.handle);
    crate::order::sorting_keeps_membership::<ManagedDisplay>(all, display);
    let i = choose|i: int| 0 <= i < grouped(candidates).len() && grouped(candidates)[i] == display;
    (i, j)
}

/// A display is known by the fingerprint of its EDID. Where another output shows
/// the same one, a suffix follows: the connector with a hyphen for everything but
/// letters and digits, or the bus.
pub proof fn equal_monitors_are_told_apart_by_their_place(
    candidates: Seq<crate::ddc::DdcCandidateView>,
    i: int,
) -> (group: Seq<crate::ddc::DdcCandidateView>)
    requires
        0 <= i < grouped(candidates).len(),
        forall|k: int|
            0 <= k < candidates.len() ==> (#[trigger] candidates[k]).fingerprint.len() == 32,
    ensures
        ({
            let display = grouped(candidates)[i];
            let plain = "edid-"@ + crate::text::hex(group[0].fingerprint);
            let shared = exists|k: int|
                0 <= k < candidates.len() && (#[trigger] candidates[k]).fingerprint
                    == group[0].fingerprint && !same_output(candidates[k], group[0]);
            let place = plain + "@"@ + match group[0].connector {
                Some(connector) => sanitized(connector),
                None => match group[0].handle.i2c_bus {
                    Some(bus) => "i2c-"@ + crate::text::decimal(bus as nat),
                    None => "unknown-bus"@,
                },
            };
            &&& group.len() > 0
            &&& candidates.contains(group[0])
            &&& display.handles[0] == group[0].handle
            &&& !shared ==> display.snapshot.id == plain
            &&& shared ==> {
                ||| display.snapshot.id == place
                ||| exists|n: nat|
                    n >= 2 && display.snapshot.id == place + "-"@ + #[trigger] crate::text::decimal(
                        n,
                    )
            }
        }),
{
    let sorted = crate::order::stably_sorted::<DdcCandidate>(candidates);
    let groups = by_output(sorted);
    let p = crate::order::sorting_permutes::<ManagedDisplay>(displays_of(groups));
    let g = p[i];
    let group = groups[g];
    let ids = assigned_ids(groups, groups.len());
    lemma_group(sorted, g);
    lemma_sorted_holds(candidates);
    assert(group.contains(group[0]));
    assert(grouped(candidates)[i] == display_of(group, ids[g]));
    assert forall|k: int| 0 <= k < sorted.len() implies (#[trigger] sorted[k]).fingerprint.len()
        == 32 by {
        assert(sorted.contains(sorted[k]));
        let m = choose|m: int| 0 <= m < candidates.len() && candidates[m] == sorted[k];
        assert(candidates[m].fingerprint.len() == 32);
    }
    ids_come_from_the_edid(sorted, g);
    let shared = exists|k: int|
        0 <= k < candidates.len() && (#[trigger] candidates[k]).fingerprint
            == group[0].fingerprint && !same_output(candidates[k], group[0]);
    if shared {
        let k = choose|k: int|
            0 <= k < candidates.len() && (#[trigger] candidates[k]).fingerprint
                == group[0].fingerprint && !same_output(candidates[k], group[0]);
        let c = candidates[k];
        assert(candidates.contains(c));
        assert(sorted.contains(c));
        outputs_are_distinct(sorted);
        let m = choose|m: int| 0 <= m < sorted.len() && sorted[m] == c;
        assert(outputs(sorted).contains(output_of(sorted[m])));
        let h = choose|h: int| 0 <= h < outputs(sorted).len() && outputs(sorted)[h] == output_of(c);
        assert(outputs(sorted)[h] == output_of(c));
        candidates_lead_to_their_output(sorted, g);
        candidates_lead_to_their_output(sorted, h);
        assert(output_of(groups[h][0]) == output_of(c));
        assert(output_of(group[0]) == outputs(sorted)[g]);
        assert(h != g);
        assert(shares_fingerprint(groups, g));
        let before = assigned_ids(groups, g as nat);
        lemma_ids_are_distinct(groups, g as nat);
        lemma_ids_grow(groups, (g + 1) as nat, groups.len(), g);
        let wished = wished_id(groups, g);
        let place = "edid-"@ + crate::text::hex(group[0].fingerprint) + "@"@ + match group[0].connector {
            Some(connector) => sanitized(connector),
            None => match group[0].handle.i2c_bus {
                Some(bus) => "i2c-"@ + crate::text::decimal(bus as nat),
                None => "unknown-bus"@,
            },
        };
        assert(wished == place);
        assert(grouped(candidates)[i].snapshot.id == ids[g]);
        taken_ids_are_new(wished, before);
        assert(ids[g] == unique_id(wished, before));
        if before.contains(wished) {
            lemma_free_number_exists(wished, before, 2);
            let n = choose|n: nat| first_free(wished, before, n);
            assert(first_free(wished, before, n));
            assert(ids[g] == place + "-"@ + crate::text::decimal(n));
        }
    } else {
        if shares_fingerprint(groups, g) {
            let h = choose|h: int|
                0 <= h < groups.len() && h != g && (#[trigger] groups[h])[0].fingerprint
                    == groups[g][0].fingerprint;
            candidates_lead_to_their_output(sorted, g);
            candidates_lead_to_their_output(sorted, h);
            outputs_are_distinct(sorted);
            let c = groups[h][0];
            assert(sorted.contains(c));
            assert(candidates.contains(c));
            let k = choose|k: int| 0 <= k < candidates.len() && candidates[k] == c;
            assert(output_of(c) == outputs(sorted)[h]);
            assert(output_of(group[0]) == outputs(sorted)[g]);
            assert(!same_output(c, group[0])) by {
                if same_output(c, group[0]) {
                    assert(output_of(c) =~= output_of(group[0]));
                }
            }
            assert(candidates[k].fingerprint == group[0].fingerprint);
        }
    }
    group
}

/// An identifier that is free is taken as it is wished for; otherwise the lowest
/// number from two on follows it that makes it free.
pub proof fn wished_ids_are_numbered_where_they_are_taken(
    base: Seq<char>,
    used: Seq<Seq<char>>,
) -> (n: nat)
    ensures
        !used.contains(base) ==> unique_id(base, used) == base,
        used.contains(base) ==> {
            &&& n >= 2
            &&& unique_id(base, used) == base + "-"@ + crate::text::decimal(n)
            &&& !used.contains(unique_id(base, used))
            &&& forall|k: nat|
                2 <= k < n ==> used.contains(base + "-"@ + #[trigger] crate::text::decimal(k))
        },
{
    if used.contains(base) {
        taken_ids_are_new(base, used);
        lemma_free_number_exists(base, used, 2);
        let n = choose|n: nat| first_free(base, used, n);
        assert forall|k: nat| 2 <= k < n implies used.contains(
            base + "-"@ + #[trigger] crate::text::decimal(k),
        ) by {
            assert(used.contains(numbered(base, k)));
        }
        n
    } else {
        2
    }
}

/// Letters and digits are kept, everything else becomes a hyphen.
pub proof fn only_letters_and_digits_are_kept(s: Seq<char>, i: int)
    requires
        0 <= i < s.len(),
    ensures
        sanitized(s).len() == s.len(),
        ({
            let n = s[i] as int;
            let kept = ('0' as int <= n && n <= '9' as int) || ('A' as int <= n && n <= 'Z' as int)
                || ('a' as int <= n && n <= 'z' as int);
            &&& kept ==> sanitized(s)[i] == s[i]
            &&& !kept ==> sanitized(s)[i] == '-'
        }),
{
}

/// The text for an output names its connector, or else its bus, and its
/// fingerprint. Candidates lead to one output exactly where these texts are the
/// same.
pub proof fn output_texts_are_those_of_outputs(
    a: crate::ddc::DdcCandidateView,
    b: crate::ddc::DdcCandidateView,
)
    requires
        a.fingerprint.len() == 32,
        b.fingerprint.len() == 32,
    ensures
        output_text(output_of(a)) == output_text(output_of(b)) <==> same_output(a, b),
        output_text(output_of(a)) == (match (a.connector, a.handle.i2c_bus) {
            (Some(connector), _) => "connector:"@ + connector,
            (None, Some(bus)) => "bus:"@ + crate::text::decimal(bus as nat),
            (None, None) => "bus:"@ + "unknown"@,
        }) + ":"@ + crate::text::hex(a.fingerprint),
{
    if output_text(output_of(a)) == output_text(output_of(b)) {
        output_texts_tell_outputs_apart(output_of(a), output_of(b));
    }
    if same_output(a, b) {
        assert(output_of(a) =~= output_of(b));
    }
}

/// Displays stand in the order of their connectors, and of their identifiers
/// where connectors are the same.
pub proof fn displays_stand_by_connector(
    candidates: Seq<crate::ddc::DdcCandidateView>,
    i: int,
    j: int,
)
    requires
        0 <= i < j < grouped(candidates).len(),
    ensures
        ({
            let first = grouped(candidates)[i].snapshot;
            let second = grouped(candidates)[j].snapshot;
            &&& !crate::order::text_before(second.connector, first.connector)
            &&& first.connector == second.connector ==> crate::order::text_before(
                first.id,
                second.id,
            )
        }),
{
    let all = grouped(candidates);
    displays_are_in_order(candidates);
    display_ids_are_unique(candidates, i, j);
    let first = all[i].snapshot;
    let second = all[j].snapshot;
    let a = crate::order::text_rank(first.id);
    let b = crate::order::text_rank(second.id);
    let none = Seq::<u64>::empty();
    assert(!crate::order::precedes(
        ManagedDisplay::rank_of(all[j]),
        ManagedDisplay::rank_of(all[i]),
    ));
    crate::order::leading_texts_decide(second.connector, b, first.connector, a);
    crate::order::leading_texts_decide(second.id, none, first.id, none);
    crate::order::texts_are_totally_ordered(first.id, second.id);
    assert(a + none =~= a);
    assert(b + none =~= b);
}

/// How an output is told from others with its fingerprint.
pub open spec fn place_of(candidate: crate::ddc::DdcCandidateView) -> Seq<char> {
    "edid-"@ + crate::text::hex(candidate.fingerprint) + "@"@ + match candidate.connector {
        Some(connector) => sanitized(connector),
        None => match candidate.handle.i2c_bus {
            Some(bus) => "i2c-"@ + crate::text::decimal(bus as nat),
            None => "unknown-bus"@,
        },
    }
}

proof fn lemma_assigned_id_begins_as_wished(
    groups: Seq<Seq<crate::ddc::DdcCandidateView>>,
    n: nat,
    i: int,
)
    requires
        0 <= i < n,
    ensures
        assigned_ids(groups, n).len() == n,
        crate::text::begins_with(assigned_ids(groups, n)[i], wished_id(groups, i)),
    decreases n,
{
    let before = assigned_ids(groups, (n - 1) as nat);
    lemma_ids_are_distinct(groups, (n - 1) as nat);
    lemma_ids_are_distinct(groups, n);
    if i < n - 1 {
        lemma_assigned_id_begins_as_wished(groups, (n - 1) as nat, i);
        assert(assigned_ids(groups, n)[i] == before[i]);
    } else {
        let wished = wished_id(groups, i);
        lemma_begins(wished, Seq::empty());
        assert(wished + Seq::<char>::empty() =~= wished);
        if before.contains(wished) {
            let k = choose|k: nat| first_free(wished, before, k);
            lemma_begins_longer(wished, wished, "-"@);
            lemma_begins_longer(wished + "-"@, wished, crate::text::decimal(k));
        }
    }
}

/// Equal monitors in different places get the identifier of their place, without
/// a number, as long as no other place of that monitor begins the same.
pub proof fn places_need_no_number(
    candidates: Seq<crate::ddc::DdcCandidateView>,
    i: int,
) -> (primary: crate::ddc::DdcCandidateView)
    requires
        0 <= i < grouped(candidates).len(),
        forall|k: int|
            0 <= k < candidates.len() ==> (#[trigger] candidates[k]).fingerprint.len() == 32,
        forall|a: int, b: int|
            0 <= a < candidates.len() && 0 <= b < candidates.len() && !same_output(
                #[trigger] candidates[a],
                #[trigger] candidates[b],
            ) ==> !crate::text::begins_with(place_of(candidates[b]), place_of(candidates[a])),
    ensures
        candidates.contains(primary),
        grouped(candidates)[i].handles[0] == primary.handle,
        (exists|k: int|
            0 <= k < candidates.len() && (#[trigger] candidates[k]).fingerprint
                == primary.fingerprint && !same_output(candidates[k], primary))
            ==> grouped(candidates)[i].snapshot.id == place_of(primary),
{
    let sorted = crate::order::stably_sorted::<DdcCandidate>(candidates);
    let groups = by_output(sorted);
    let p = crate::order::sorting_permutes::<ManagedDisplay>(displays_of(groups));
    let g = p[i];
    let group = groups[g];
    let primary = group[0];
    let ids = assigned_ids(groups, groups.len());
    lemma_group(sorted, g);
    lemma_sorted_holds(candidates);
    assert(group.contains(primary));
    assert(candidates.contains(primary));
    assert(grouped(candidates)[i] == display_of(group, ids[g]));
    candidates_lead_to_their_output(sorted, g);
    outputs_are_distinct(sorted);
    if exists|k: int|
        0 <= k < candidates.len() && (#[trigger] candidates[k]).fingerprint == primary.fingerprint
            && !same_output(candidates[k], primary) {
        let k = choose|k: int|
            0 <= k < candidates.len() && (#[trigger] candidates[k]).fingerprint
                == primary.fingerprint && !same_output(candidates[k], primary);
        let c = candidates[k];
        assert(candidates.contains(c));
        assert(sorted.contains(c));
        let m = choose|m: int| 0 <= m < sorted.len() && sorted[m] == c;
        assert(outputs(sorted).contains(output_of(sorted[m])));
        let h = choose|h: int| 0 <= h < outputs(sorted).len() && outputs(sorted)[h] == output_of(c);
        assert(outputs(sorted)[h] == output_of(c));
        candidates_lead_to_their_output(sorted, h);
        assert(output_of(groups[h][0]) == output_of(c));
        assert(output_of(primary) == outputs(sorted)[g]);
        assert(shares_fingerprint(groups, g));
        assert(wished_id(groups, g) == place_of(primary));
        let before = assigned_ids(groups, g as nat);
        lemma_ids_are_distinct(groups, g as nat);
        lemma_ids_grow(groups, (g + 1) as nat, groups.len(), g);
        let wished = wished_id(groups, g);
        assert(ids[g] == unique_id(wished, before));
        if before.contains(wished) {
            let j = choose|j: int| 0 <= j < before.len() && before[j] == wished;
            lemma_assigned_id_begins_as_wished(groups, g as nat, j);
            lemma_assigned_id_begins(groups, g as nat, j);
            candidates_lead_to_their_output(sorted, j);
            let d = groups[j][0];
            assert(sorted.contains(d));
            assert(candidates.contains(d));
            let x = choose|x: int| 0 <= x < candidates.len() && candidates[x] == d;
            let y = choose|y: int| 0 <= y < candidates.len() && candidates[y] == primary;
            assert(candidates[x].fingerprint.len() == 32);
            assert(candidates[y].fingerprint.len() == 32);
            assert(output_of(d) == outputs(sorted)[j]);
            assert(outputs(sorted)[j] != outputs(sorted)[g]);
            assert(!same_output(d, primary)) by {
                if same_output(d, primary) {
                    assert(output_of(d) =~= output_of(primary));
                }
            }
            if d.fingerprint == primary.fingerprint {
                assert(groups[g][0].fingerprint == groups[j][0].fingerprint);
                assert(shares_fingerprint(groups, j));
                assert(wished_id(groups, j) == place_of(d));
                assert(!crate::text::begins_with(place_of(primary), place_of(d)));
            } else {
                let plain = crate::ddc::edid_id(primary.fingerprint);
                let theirs = crate::ddc::edid_id(d.fingerprint);
                lemma_wished_id_begins(groups, g);
                assert(crate::text::begins_with(wished, theirs));
                assert(crate::text::hex(d.fingerprint).len() == 64);
                assert(crate::text::hex(primary.fingerprint).len() == 64);
                assert(plain.len() == theirs.len());
                assert(wished.take(plain.len() as int) == plain);
                assert(plain == theirs);
                assert(plain.take(theirs.len() as int) =~= theirs);
                lemma_edid_ids(primary.fingerprint, d.fingerprint);
            }
        }
    }
    primary
}

/// What is known of a display is what it holds.
pub proof fn displays_say_what_they_hold(display: ManagedDisplay)
    ensures
        display@.handles == display.handles@,
        display@.active == display.active,
        display@.snapshot == display.snapshot@,
{
}

} // verus!
