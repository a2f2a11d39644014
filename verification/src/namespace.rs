//! Network namespaces: their names and addresses, and how they are set up.

use vstd::prelude::*;
use vstd::slice::slice_subrange;

use crate::error::SiteError;
use crate::number::{decimal, decimal_text, hex8, hex_char, hex_text, law_digits_tell_number,
    law_hex_is_read, law_number_is_written, lemma_digits_look, lemma_digits_read_back, lemma_padding_looks,
    lemma_padding_reads_back, number_char, number_value, parse_number, worth, zero_padded};
use crate::text::{begins_with, chars_of, copy_strings, law_parted_at_first, split_on, string_views};

verus! {

/// The third part of the addresses of a namespace.
pub open spec fn third_part(id: u32) -> nat {
    ((id / 256) % 256) as nat
}

/// Where the block of four addresses of a namespace begins.
pub open spec fn block(id: u32) -> nat {
    ((id % 64) * 4) as nat
}

/// An address in the block of a namespace.
pub open spec fn address(id: u32, offset: nat) -> Seq<char> {
    "10.203."@ + decimal_text(third_part(id)) + "."@ + decimal_text(block(id) + offset)
}

fn address_text(id: u32, offset: u8) -> (text: String)
    requires
        offset < 4,
    ensures
        text@ == address(id, offset as nat),
{
    assert((id >> 8) & 0xff == (id / 256) % 256) by (bit_vector);
    assert(id & 0x3f == id % 64) by (bit_vector);
    let third = decimal(((id >> 8) & 0xff) as u64);
    let last = decimal(((id & 0x3f) * 4) as u64 + offset as u64);
    "10.203.".to_string().concat(third.as_str()).concat(".").concat(last.as_str())
}

/// The addresses of the two ends of the link to a namespace, each with the
/// length of its prefix: that of the host, then that of the namespace.
pub fn namespace_addresses(id: u32) -> (addresses: (String, String))
    ensures
        addresses.0@ == address(id, 1) + "/30"@,
        addresses.1@ == address(id, 2) + "/30"@,
{
    let host = address_text(id, 1);
    let guest = address_text(id, 2);
    (host.concat("/30"), guest.concat("/30"))
}

/// A text without the `front` that it begins with, however often.
pub open spec fn without_front(text: Seq<char>, front: Seq<char>) -> Seq<char>
    decreases text.len(),
{
    if front.len() > 0 && front.is_prefix_of(text) {
        without_front(text.skip(front.len() as int), front)
    } else {
        text
    }
}

fn trim_front_text<'a>(text: &'a [char], front: &[char]) -> (rest: &'a [char])
    ensures
        rest@ == without_front(text@, front@),
{
    let mut rest = text;
    if front.len() == 0 {
        return rest;
    }
    while begins_with(rest, front)
        invariant
            front@.len() > 0,
            without_front(rest@, front@) == without_front(text@, front@),
        decreases rest@.len(),
    {
        let n = rest.len();
        let next = slice_subrange(rest, front.len(), n);
        assert(next@ =~= rest@.skip(front@.len() as int));
        rest = next;
    }
    rest
}

/// The number that stands in the name of a namespace, or 0 where there is none.
pub open spec fn id_of(namespace: Seq<char>) -> nat {
    match number_value(without_front(namespace, "ms"@), 16, u32::MAX as nat) {
        Ok(id) => id,
        Err(_) => 0,
    }
}

/// The address at which a process in a namespace takes requests.
pub fn namespace_address(namespace: &str) -> (text: String)
    ensures
        id_of(namespace@) <= u32::MAX,
        text@ == address(id_of(namespace@) as u32, 2),
{
    let chars = chars_of(namespace);
    let front = chars_of("ms");
    let rest = trim_front_text(chars.as_slice(), front.as_slice());
    let id: u32 = match parse_number(rest, 16, u32::MAX as u64) {
        Ok(id) => id as u32,
        Err(_) => 0,
    };
    address_text(id, 2)
}

/// The name of a namespace.
pub open spec fn namespace_name(id: u32) -> Seq<char> {
    "ms"@ + zero_padded(hex_text(id as nat), 8)
}

/// The name of the host's end of the link to a namespace.
pub open spec fn host_interface(id: u32) -> Seq<char> {
    "mh"@ + zero_padded(hex_text(id as nat), 8)
}

/// The name of the other end.
pub open spec fn guest_interface(id: u32) -> Seq<char> {
    "mn"@ + zero_padded(hex_text(id as nat), 8)
}

/// The views of a list of commands.
pub open spec fn command_views(commands: Seq<Vec<String>>) -> Seq<Seq<Seq<char>>> {
    commands.map_values(|command: Vec<String>| string_views(command@))
}

/// The arguments of `ip` that set up a namespace, in the order of the calls.
pub open spec fn setup_commands(id: u32) -> Seq<Seq<Seq<char>>> {
    let name = namespace_name(id);
    let host = host_interface(id);
    let guest = guest_interface(id);
    seq![
        seq!["netns"@, "add"@, name],
        seq!["link"@, "add"@, host, "type"@, "veth"@, "peer"@, "name"@, guest],
        seq!["link"@, "set"@, guest, "netns"@, name],
        seq!["addr"@, "add"@, address(id, 1) + "/30"@, "dev"@, host],
        seq!["link"@, "set"@, host, "up"@],
        seq!["netns"@, "exec"@, name, "ip"@, "link"@, "set"@, "lo"@, "up"@],
        seq![
            "netns"@,
            "exec"@,
            name,
            "ip"@,
            "addr"@,
            "add"@,
            address(id, 2) + "/30"@,
            "dev"@,
            guest,
        ],
        seq!["netns"@, "exec"@, name, "ip"@, "link"@, "set"@, guest, "up"@],
    ]
}

/// How a namespace is set up.
#[derive(Debug)]
pub struct NamespacePlan {
    /// The name of the namespace.
    pub namespace: String,
    /// The arguments of `ip`, in the order of the calls.
    pub commands: Vec<Vec<String>>,
}

fn words(list: Vec<&str>) -> (texts: Vec<String>)
    ensures
        texts@.len() == list@.len(),
        forall|i: int| 0 <= i < list@.len() ==> (#[trigger] texts@[i])@ == list@[i]@,
{
    let mut texts: Vec<String> = Vec::new();
    let mut i: usize = 0;
    while i < list.len()
        invariant
            i <= list@.len(),
            texts@.len() == i,
            forall|k: int| 0 <= k < i ==> (#[trigger] texts@[k])@ == list@[k]@,
        decreases list@.len() - i,
    {
        texts.push(list[i].to_string());
        i = i + 1;
    }
    texts
}

/// How the namespace with this number is set up.
pub fn create_namespace(id: u32) -> (plan: NamespacePlan)
    ensures
        plan.namespace@ == namespace_name(id),
        command_views(plan.commands@) == setup_commands(id),
{
    let digits = hex8(id);
    let namespace = "ms".to_string().concat(digits.as_str());
    let host = "mh".to_string().concat(digits.as_str());
    let guest = "mn".to_string().concat(digits.as_str());
    let (host_address, guest_address) = namespace_addresses(id);
    let n = namespace.as_str();
    let h = host.as_str();
    let g = guest.as_str();
    let mut commands: Vec<Vec<String>> = Vec::new();
    let c0 = words(vec!["netns", "add", n]);
    let c1 = words(vec!["link", "add", h, "type", "veth", "peer", "name", g]);
    let c2 = words(vec!["link", "set", g, "netns", n]);
    let c3 = words(vec!["addr", "add", host_address.as_str(), "dev", h]);
    let c4 = words(vec!["link", "set", h, "up"]);
    let c5 = words(vec!["netns", "exec", n, "ip", "link", "set", "lo", "up"]);
    let c6 = words(
        vec!["netns", "exec", n, "ip", "addr", "add", guest_address.as_str(), "dev", g],
    );
    let c7 = words(vec!["netns", "exec", n, "ip", "link", "set", g, "up"]);
    proof {
        let all = setup_commands(id);
        assert(string_views(c0@) =~= all[0]);
        assert(string_views(c1@) =~= all[1]);
        assert(string_views(c2@) =~= all[2]);
        assert(string_views(c3@) =~= all[3]);
        assert(string_views(c4@) =~= all[4]);
        assert(string_views(c5@) =~= all[5]);
        assert(string_views(c6@) =~= all[6]);
        assert(string_views(c7@) =~= all[7]);
    }
    commands.push(c0);
    commands.push(c1);
    commands.push(c2);
    commands.push(c3);
    commands.push(c4);
    commands.push(c5);
    commands.push(c6);
    commands.push(c7);
    assert(command_views(commands@) =~= setup_commands(id));
    NamespacePlan { namespace, commands }
}

/// The arguments of `ip` that remove a namespace.
pub fn cleanup_command(namespace: &str) -> (command: Vec<String>)
    ensures
        string_views(command@) == removal(namespace@),
{
    let command = words(vec!["netns", "del", namespace]);
    assert(string_views(command@) =~= removal(namespace@));
    command
}

impl NamespacePlan {
    /// The arguments of `ip` that are run before the first command: they remove a
    /// namespace of the same name that was left behind. There need be none, so it
    /// does not matter whether they succeed.
    pub fn leftover_removal(&self) -> (command: Vec<String>)
        ensures
            string_views(command@) == removal(self.namespace@),
    {
        cleanup_command(self.namespace.as_str())
    }
}

/// What the setup of a namespace does next.
#[derive(Debug)]
pub enum NamespaceStep {
    /// It runs `ip` with these arguments.
    Run(Vec<String>),
    /// It removes what is there with these arguments of `ip`, and fails.
    Remove {
        /// The arguments.
        command: Vec<String>,
        /// The error.
        error: SiteError,
    },
    /// The namespace is there.
    Ready(String),
}

/// The arguments of `ip` that remove a namespace.
pub open spec fn removal(namespace: Seq<char>) -> Seq<Seq<char>> {
    seq!["netns"@, "del"@, namespace]
}

/// What the setup of a namespace does next, once its first commands have
/// succeeded or not like this.
pub open spec fn setup_step(plan: NamespacePlan, ends: Seq<bool>, step: NamespaceStep) -> bool {
    if ends.len() > 0 && !ends.last() {
        &&& step matches NamespaceStep::Remove { command, error }
        &&& string_views(command@) == removal(plan.namespace@)
        &&& error == (SiteError::NamespaceFailed { namespace: plan.namespace })
    } else if ends.len() < plan.commands@.len() {
        &&& step matches NamespaceStep::Run(command)
        &&& string_views(command@) == string_views(plan.commands@[ends.len() as int]@)
    } else {
        step == NamespaceStep::Ready(plan.namespace)
    }
}

/// What the setup of a namespace does next, once its first commands have
/// succeeded or not like this: it runs them in order, and with the first that
/// fails it removes the namespace and fails.
pub fn namespace_step(plan: &NamespacePlan, ends: &Vec<bool>) -> (step: NamespaceStep)
    requires
        ends@.len() <= plan.commands@.len(),
    ensures
        setup_step(*plan, ends@, step),
{
    let done = ends.len();
    if done > 0 && !ends[done - 1] {
        return NamespaceStep::Remove {
            command: cleanup_command(plan.namespace.as_str()),
            error: SiteError::NamespaceFailed { namespace: plan.namespace.clone() },
        };
    }
    if done < plan.commands.len() {
        NamespaceStep::Run(copy_strings(&plan.commands[done]))
    } else {
        NamespaceStep::Ready(plan.namespace.clone())
    }
}

// ---------------------------------------------------------------------------
// Laws

/// A namespace is there only once every command has run and succeeded, a command
/// runs only once all before it have, and one that fails is the last: what
/// follows it is the removal, with an error. `steps` are the steps of one setup,
/// and `ends` whether the commands succeeded that they ran.
pub proof fn law_first_failure_ends_setup(
    plan: NamespacePlan,
    ends: Seq<bool>,
    steps: Seq<NamespaceStep>,
)
    requires
        steps.len() == ends.len() + 1,
        forall|k: int|
            0 <= k < steps.len() ==> setup_step(plan, ends.take(k), #[trigger] steps[k]),
        forall|k: int| 0 <= k < ends.len() ==> (#[trigger] steps[k]) is Run,
    ensures
        forall|k: int| 0 <= k < ends.len() - 1 ==> #[trigger] ends[k],
        ends.len() > 0 && !ends.last() ==> steps.last() is Remove,
        steps.last() is Ready ==> ends.len() == plan.commands@.len() && forall|k: int|
            0 <= k < ends.len() ==> #[trigger] ends[k],
{
    assert(steps.last() == steps[ends.len() as int]);
    assert(ends.take(ends.len() as int) =~= ends);
    assert forall|k: int| 0 <= k < ends.len() - 1 implies #[trigger] ends[k] by {
        assert(steps[k + 1] is Run);
        assert(ends.take(k + 1).last() == ends[k]);
    }
    if steps.last() is Ready {
        assert forall|k: int| 0 <= k < ends.len() implies #[trigger] ends[k] by {
            if k == ends.len() - 1 {
                assert(ends.last() == ends[k]);
            }
        }
        if ends.len() > 0 {
            assert(steps[ends.len() - 1] is Run);
            assert(ends.take(ends.len() - 1).len() < plan.commands@.len());
        }
    }
}

spec fn sixteens(k: nat) -> nat
    decreases k,
{
    if k == 0 {
        1
    } else {
        16 * sixteens((k - 1) as nat)
    }
}

proof fn lemma_digit_count(n: nat, k: nat)
    requires
        k > 0,
        n < sixteens(k),
    ensures
        hex_text(n).len() <= k,
    decreases k,
{
    if n >= 16 {
        assert(sixteens(1) == 16) by {
            reveal_with_fuel(sixteens, 2);
        }
        lemma_digit_count(n / 16, (k - 1) as nat);
    }
}

proof fn lemma_padded_length(text: Seq<char>, width: nat)
    requires
        text.len() <= width,
    ensures
        zero_padded(text, width).len() == width,
    decreases width - text.len(),
{
    if text.len() < width {
        lemma_padded_length(seq!['0'] + text, width);
    }
}

/// The name of a namespace is `ms` and eight hexadecimal digits in lower case.
pub proof fn law_name_has_eight_digits(id: u32)
    ensures
        namespace_name(id) == "ms"@ + zero_padded(hex_text(id as nat), 8),
        zero_padded(hex_text(id as nat), 8).len() == 8,
        forall|i: int| 0 <= i < 8 ==> number_char(
            #[trigger] zero_padded(hex_text(id as nat), 8)[i],
            16,
        ),
{
    reveal_with_fuel(sixteens, 9);
    lemma_digit_count(id as nat, 8);
    lemma_padded_length(hex_text(id as nat), 8);
    lemma_digits_look(id as nat, 16);
    lemma_padding_looks(hex_text(id as nat), 8, 16);
}

/// The name of a namespace tells its number.
pub proof fn law_name_tells_number(id: u32)
    ensures
        id_of(namespace_name(id)) == id,
{
    let text = hex_text(id as nat);
    let padded = zero_padded(text, 8);
    let name = namespace_name(id);
    reveal_strlit("ms");
    lemma_digits_look(id as nat, 16);
    lemma_padding_looks(text, 8, 16);
    assert("ms"@.is_prefix_of(name)) by {
        assert(name.subrange(0, 2) =~= "ms"@);
    }
    assert(name.skip(2) =~= padded);
    assert(number_char(padded[0], 16));
    if "ms"@.is_prefix_of(padded) {
        assert(padded[0] == "ms"@[0]);
    }
    assert(without_front(padded, "ms"@) == padded);
    assert(without_front(name, "ms"@) == padded);
    lemma_digits_read_back(id as nat, 16, u32::MAX as nat);
    lemma_padding_reads_back(text, 8, 16, u32::MAX as nat);
}

/// The address at which a process is reached is the one that its namespace was
/// given: what stands before the slash.
pub proof fn law_address_is_the_guests(id: u32)
    ensures
        split_on(address(id, 2) + "/30"@, '/')[0] == address(id_of(namespace_name(id)) as u32, 2),
        setup_commands(id)[6][6] == address(id_of(namespace_name(id)) as u32, 2) + "/30"@,
{
    law_name_tells_number(id);
    let host = address(id, 2);
    let whole = host + "/30"@;
    reveal_strlit("/30");
    reveal_strlit("10.203.");
    reveal_strlit(".");
    lemma_digits_look(third_part(id), 10);
    lemma_digits_look(block(id) + 2, 10);
    assert forall|i: int| 0 <= i < host.len() implies #[trigger] host[i] != '/' by {
        let a = "10.203."@;
        let b = decimal_text(third_part(id));
        let c = "."@;
        let d = decimal_text(block(id) + 2);
        assert(host == a + b + c + d);
        if i < a.len() {
            assert(host[i] == a[i]);
        } else if i < a.len() + b.len() {
            assert(host[i] == b[i - a.len()]);
        } else if i < a.len() + b.len() + c.len() {
            assert(host[i] == c[i - a.len() - b.len()]);
        } else {
            assert(host[i] == d[i - a.len() - b.len() - c.len()]);
        }
    }
    crate::text::lemma_position_is(whole, '/', host.len() as int);
    assert(whole.take(host.len() as int) =~= host);
}

/// The two ends of a link have different addresses, the second and the third of
/// a block of four that begins at a multiple of four.
pub proof fn law_addresses_share_a_block(id: u32)
    ensures
        third_part(id) < 256,
        block(id) % 4 == 0,
        block(id) + 3 < 256,
        address(id, 1) != address(id, 2),
{
    let front = "10.203."@ + decimal_text(third_part(id)) + "."@;
    if address(id, 1) == address(id, 2) {
        assert(address(id, 1).skip(front.len() as int) =~= decimal_text(block(id) + 1));
        assert(address(id, 2).skip(front.len() as int) =~= decimal_text(block(id) + 2));
        lemma_digits_read_back(block(id) + 1, 10, 256);
        lemma_digits_read_back(block(id) + 2, 10, 256);
    }
}

/// The addresses of a namespace are made of the bits of its number: the second
/// lowest byte gives the third part, and the six lowest bits say which block of
/// four it is.
pub proof fn law_address_bits(id: u32, offset: nat)
    ensures
        address(id, offset) == "10.203."@ + decimal_text(((id >> 8) & 0xff) as nat) + "."@
            + decimal_text((4 * (id & 0x3f) + offset) as nat),
{
    assert((id >> 8) & 0xff == (id / 256) % 256) by (bit_vector);
    assert(id & 0x3f == id % 64) by (bit_vector);
}

/// Two namespaces have the same addresses if and only if their numbers agree in
/// those bits.
pub proof fn law_addresses_tell_bits(a: u32, b: u32, offset: nat)
    ensures
        address(a, offset) == address(b, offset) <==> (a >> 8) & 0xff == (b >> 8) & 0xff && a & 0x3f
            == b & 0x3f,
{
    law_address_bits(a, offset);
    law_address_bits(b, offset);
    if address(a, offset) == address(b, offset) {
        lemma_two_numbers(
            ((a >> 8) & 0xff) as nat,
            (4 * (a & 0x3f) + offset) as nat,
            ((b >> 8) & 0xff) as nat,
            (4 * (b & 0x3f) + offset) as nat,
        );
    }
}

proof fn lemma_two_numbers(a: nat, b: nat, c: nat, d: nat)
    requires
        "10.203."@ + decimal_text(a) + "."@ + decimal_text(b) == "10.203."@ + decimal_text(c) + "."@
            + decimal_text(d),
    ensures
        a == c,
        b == d,
{
    reveal_strlit(".");
    let front = "10.203."@;
    let one = decimal_text(a).push('.') + decimal_text(b);
    let two = decimal_text(c).push('.') + decimal_text(d);
    assert(front + decimal_text(a) + "."@ + decimal_text(b) =~= front + one);
    assert(front + decimal_text(c) + "."@ + decimal_text(d) =~= front + two);
    assert((front + one).skip(front.len() as int) =~= one);
    assert((front + two).skip(front.len() as int) =~= two);
    law_number_is_written(a, 10);
    law_number_is_written(c, 10);
    assert forall|i: int| 0 <= i < decimal_text(a).len() implies #[trigger] decimal_text(a)[i]
        != '.' by {
        assert(number_char(decimal_text(a)[i], 10));
    }
    assert forall|i: int| 0 <= i < decimal_text(c).len() implies #[trigger] decimal_text(c)[i]
        != '.' by {
        assert(number_char(decimal_text(c)[i], 10));
    }
    law_parted_at_first(decimal_text(a), decimal_text(b), '.');
    law_parted_at_first(decimal_text(c), decimal_text(d), '.');
    law_digits_tell_number(a, c, 10);
    law_digits_tell_number(b, d, 10);
}

/// Namespaces with different numbers have different names, and so have the ends
/// of their links.
pub proof fn law_names_differ(a: u32, b: u32)
    requires
        a != b,
    ensures
        namespace_name(a) != namespace_name(b),
        host_interface(a) != host_interface(b),
        guest_interface(a) != guest_interface(b),
{
    reveal_strlit("ms");
    reveal_strlit("mh");
    reveal_strlit("mn");
    let one = zero_padded(hex_text(a as nat), 8);
    let two = zero_padded(hex_text(b as nat), 8);
    lemma_digits_read_back(a as nat, 16, u32::MAX as nat);
    lemma_digits_read_back(b as nat, 16, u32::MAX as nat);
    lemma_padding_reads_back(hex_text(a as nat), 8, 16, u32::MAX as nat);
    lemma_padding_reads_back(hex_text(b as nat), 8, 16, u32::MAX as nat);
    assert(namespace_name(a).skip(2) =~= one && namespace_name(b).skip(2) =~= two);
    assert(host_interface(a).skip(2) =~= one && host_interface(b).skip(2) =~= two);
    assert(guest_interface(a).skip(2) =~= one && guest_interface(b).skip(2) =~= two);
}

/// What a namespace is set up with: the namespace, a link with one end on the
/// host and one in the namespace, an address for each end, and every end up. The
/// names are all made of the same eight digits, which are worth the number.
pub proof fn law_setup(id: u32)
    ensures
        exists|digits: Seq<char>|
            {
                let name = "ms"@ + digits;
                let host = "mh"@ + digits;
                let guest = "mn"@ + digits;
                &&& digits.len() == 8
                &&& #[trigger] worth(digits, 16) == id
                &&& namespace_name(id) == name
                &&& setup_commands(id) == seq![
                    seq!["netns"@, "add"@, name],
                    seq!["link"@, "add"@, host, "type"@, "veth"@, "peer"@, "name"@, guest],
                    seq!["link"@, "set"@, guest, "netns"@, name],
                    seq!["addr"@, "add"@, address(id, 1) + "/30"@, "dev"@, host],
                    seq!["link"@, "set"@, host, "up"@],
                    seq!["netns"@, "exec"@, name, "ip"@, "link"@, "set"@, "lo"@, "up"@],
                    seq![
                        "netns"@,
                        "exec"@,
                        name,
                        "ip"@,
                        "addr"@,
                        "add"@,
                        address(id, 2) + "/30"@,
                        "dev"@,
                        guest,
                    ],
                    seq!["netns"@, "exec"@, name, "ip"@, "link"@, "set"@, guest, "up"@],
                ]
            },
{
    let digits = zero_padded(hex_text(id as nat), 8);
    law_name_has_eight_digits(id);
    law_number_is_written(id as nat, 16);
    lemma_padding_worth(hex_text(id as nat), 8);
    assert(worth(digits, 16) == id);
    assert(setup_commands(id)[0] =~= seq!["netns"@, "add"@, "ms"@ + digits]);
}

proof fn lemma_worth_zero(text: Seq<char>)
    ensures
        worth(seq!['0'] + text, 16) == worth(text, 16),
    decreases text.len(),
{
    let longer = seq!['0'] + text;
    if text.len() == 0 {
        assert(longer.drop_last() =~= text);
        assert(longer.last() == '0');
        assert(worth(text, 16) == 0);
    } else {
        assert(longer.drop_last() =~= seq!['0'] + text.drop_last());
        lemma_worth_zero(text.drop_last());
    }
}

proof fn lemma_padding_worth(text: Seq<char>, width: nat)
    ensures
        worth(zero_padded(text, width), 16) == worth(text, 16),
    decreases width - text.len(),
{
    if text.len() < width {
        lemma_worth_zero(text);
        lemma_padding_worth(seq!['0'] + text, width);
    }
}

/// The front of a text is taken off as often as it stands there.
pub proof fn law_front_is_taken_off(text: Seq<char>, front: Seq<char>)
    requires
        front.len() > 0,
    ensures
        without_front(front + text, front) == without_front(text, front),
        !front.is_prefix_of(text) ==> without_front(text, front) == text,
{
    let all = front + text;
    assert(all.subrange(0, front.len() as int) =~= front);
    assert(all.skip(front.len() as int) =~= text);
}

/// Each step of a setup runs the next command as it stands, removes the
/// namespace by its name after one that failed, or hands on the name.
pub proof fn law_setup_step(plan: NamespacePlan, ends: Seq<bool>, step: NamespaceStep)
    requires
        setup_step(plan, ends, step),
        ends.len() <= plan.commands@.len(),
    ensures
        step is Remove <==> ends.len() > 0 && !ends.last(),
        step is Run <==> ends.len() < plan.commands@.len() && (ends.len() == 0 || ends.last()),
        step matches NamespaceStep::Run(command) ==> string_views(command@) == string_views(
            plan.commands@[ends.len() as int]@,
        ),
        step matches NamespaceStep::Ready(name) ==> name@ == plan.namespace@,
        step matches NamespaceStep::Remove { command, error } ==> {
            &&& command@.len() == 3
            &&& command@[0]@ == "netns"@ && command@[1]@ == "del"@ && command@[2]@
                == plan.namespace@
            &&& error == (SiteError::NamespaceFailed { namespace: plan.namespace })
        },
{
    if let NamespaceStep::Remove { command, error } = step {
        let views = string_views(command@);
        assert(views.len() == command@.len());
        assert(views[0] == command@[0]@ && views[1] == command@[1]@ && views[2] == command@[2]@);
    }
}

/// The views of a list of commands are those of their words, one by one and in
/// their order.
pub proof fn law_command_views(commands: Seq<Vec<String>>)
    ensures
        command_views(commands).len() == commands.len(),
        forall|i: int|
            0 <= i < commands.len() ==> #[trigger] command_views(commands)[i] == string_views(
                commands[i]@,
            ),
{
}

/// A name without a number stands for the number 0, and so does one whose number
/// has more than 32 bits.
pub proof fn law_number_in_name(digits: Seq<char>)
    requires
        digits.len() > 0,
        forall|i: int| 0 <= i < digits.len() ==> hex_char(#[trigger] digits[i]),
    ensures
        worth(digits, 16) <= u32::MAX ==> id_of("ms"@ + digits) == worth(digits, 16),
        worth(digits, 16) > u32::MAX ==> id_of("ms"@ + digits) == 0,
        id_of("ms"@) == 0,
{
    reveal_strlit("ms");
    law_hex_is_read(digits, u32::MAX as nat);
    assert(hex_char(digits[0]));
    if "ms"@.is_prefix_of(digits) {
        assert(digits[0] == "ms"@[0]);
    }
    law_front_is_taken_off(digits, "ms"@);
    let nothing = Seq::<char>::empty();
    law_front_is_taken_off(nothing, "ms"@);
    assert("ms"@ + nothing =~= "ms"@);
}

} // verus!
