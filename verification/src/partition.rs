//! Partition assignment for table-level write scaling.
//!
//! Maps tables to partitions (nodes). Each node owns a set of tables and is
//! the single committer for those tables, preserving the single-writer
//! guarantee within each partition.
//!
//! A `PartitionMap` assigns each table name to a `PartitionId`. All nodes must
//! agree on the mapping. Tables not explicitly assigned go to partition 0 (the
//! default partition). System tables (whose names start with `_`) are always
//! on partition 0.

use vstd::prelude::*;
use vstd::std_specs::convert::FromSpecImpl;

use crate::ordered::SortedMap;
use crate::text;

verus! {

/// Identifies a partition (node) in the cluster.
/// Partition 0 is the default and owns all system tables.
#[derive(Clone, Copy, Debug, PartialEq, Eq, PartialOrd, Ord, Hash, Structural)]
pub struct PartitionId(pub u32);

impl PartitionId {
    /// The default partition that owns system tables and any unassigned
    /// user tables.
    pub fn default_partition() -> (r: PartitionId)
        ensures
            r == PartitionId(0),
    {
        PartitionId(0)
    }

    /// The printed form.
    pub open spec fn printed(self) -> Seq<char> {
        "partition-"@ + text::decimal(self.0 as nat)
    }

    /// The printed form.
    pub fn print(&self) -> (r: String)
        ensures
            r@ == self.printed(),
    {
        let mut s = "partition-".to_owned();
        text::push_decimal(&mut s, self.0 as u64);
        s
    }
}

/// Monotonically identifies the placement metadata version used for routing.
///
/// Version 0 is the static, startup-configured map. Dynamic placement updates
/// must bump this value whenever ownership changes.
#[derive(Clone, Copy, Debug, PartialEq, Eq, PartialOrd, Ord, Hash, Structural)]
pub struct PlacementVersion(pub u64);

impl PlacementVersion {
    /// The version of the startup-configured map.
    pub fn static_version() -> (r: PlacementVersion)
        ensures
            r == PlacementVersion(0),
    {
        PlacementVersion(0)
    }

    pub fn new(version: u64) -> (r: Self)
        ensures
            r == PlacementVersion(version),
    {
        PlacementVersion(version)
    }

    /// The printed form.
    pub open spec fn printed(self) -> Seq<char> {
        "placement-version-"@ + text::decimal(self.0 as nat)
    }

    /// The printed form.
    pub fn print(&self) -> (r: String)
        ensures
            r@ == self.printed(),
    {
        let mut s = "placement-version-".to_owned();
        text::push_decimal(&mut s, self.0);
        s
    }
}

impl Default for PlacementVersion {
    fn default() -> (r: Self)
        ensures
            r == PlacementVersion(0),
    {
        PlacementVersion(0)
    }
}

impl From<PlacementVersion> for u64 {
    fn from(version: PlacementVersion) -> (r: u64) {
        version.0
    }
}

impl FromSpecImpl<PlacementVersion> for u64 {
    open spec fn obeys_from_spec() -> bool {
        true
    }

    open spec fn from_spec(version: PlacementVersion) -> u64 {
        version.0
    }
}

impl From<u64> for PlacementVersion {
    fn from(version: u64) -> (r: PlacementVersion) {
        PlacementVersion(version)
    }
}

impl FromSpecImpl<u64> for PlacementVersion {
    open spec fn obeys_from_spec() -> bool {
        true
    }

    open spec fn from_spec(version: u64) -> PlacementVersion {
        PlacementVersion(version)
    }
}

/// The longest table name.
pub const MAX_TABLE_NAME_LENGTH: usize = 64;

/// The character may stand in a table name.
pub open spec fn is_name_char(c: char) -> bool {
    text::is_digit(c) || 'a' <= c <= 'z' || 'A' <= c <= 'Z' || c == '_'
}

/// The text is a table name: an identifier of letters, digits and underscores
/// that does not start with a digit, with something other than underscores in
/// it.
pub open spec fn is_table_name(s: Seq<char>) -> bool {
    &&& 0 < s.len() <= MAX_TABLE_NAME_LENGTH
    &&& !text::is_digit(s[0])
    &&& forall|i: int| 0 <= i < s.len() ==> is_name_char(#[trigger] s[i])
    &&& exists|i: int| 0 <= i < s.len() && #[trigger] s[i] != '_'
}

/// The name is that of a system table.
pub open spec fn is_system_name(s: Seq<char>) -> bool {
    s.len() > 0 && s[0] == '_'
}

/// Whether the characters at positions `from` to `to` are a table name.
fn names_table(chars: &Vec<char>, from: usize, to: usize) -> (r: bool)
    requires
        from <= to <= chars@.len(),
    ensures
        r == is_table_name(chars@.subrange(from as int, to as int)),
{
    let ghost s = chars@.subrange(from as int, to as int);
    if from == to || to - from > MAX_TABLE_NAME_LENGTH {
        return false;
    }
    assert(s[0] == chars@[from as int]);
    if '0' <= chars[from] && chars[from] <= '9' {
        return false;
    }
    let mut other = false;
    let mut i: usize = from;
    while i < to
        invariant
            from <= i <= to <= chars@.len(),
            s == chars@.subrange(from as int, to as int),
            forall|k: int| 0 <= k < i - from ==> is_name_char(#[trigger] s[k]),
            other ==> exists|k: int| 0 <= k < s.len() && #[trigger] s[k] != '_',
            !other ==> forall|k: int| 0 <= k < i - from ==> #[trigger] s[k] == '_',
        decreases to - i,
    {
        let c = chars[i];
        assert(c == s[i - from]);
        if !(('0' <= c && c <= '9') || ('a' <= c && c <= 'z') || ('A' <= c && c <= 'Z') || c
            == '_') {
            assert(!is_name_char(s[i - from]));
            return false;
        }
        if c != '_' {
            other = true;
        }
        i = i + 1;
    }
    other
}

/// The name of a table.
#[derive(Debug, PartialEq, Eq, PartialOrd, Ord)]
pub struct TableName {
    name: String,
}

impl View for TableName {
    type V = Seq<char>;

    closed spec fn view(&self) -> Seq<char> {
        self.name@
    }
}

impl TableName {
    #[verifier::type_invariant]
    spec fn names_table(self) -> bool {
        is_table_name(self.name@)
    }

    /// Reads a table name.
    pub fn parse(s: &str) -> (r: Option<TableName>)
        ensures
            r is Some <==> is_table_name(s@),
            r matches Some(name) ==> name@ == s@,
    {
        let chars = text::chars_of(s);
        assert(chars@.subrange(0, chars@.len() as int) =~= s@);
        if names_table(&chars, 0, chars.len()) {
            Some(TableName { name: s.to_owned() })
        } else {
            None
        }
    }

    pub fn as_str(&self) -> (r: &str)
        ensures
            r@ == self@,
            is_table_name(self@),
    {
        proof {
            use_type_invariant(&*self);
        }
        self.name.as_str()
    }

    /// Whether this is a system table.
    pub fn is_system(&self) -> (r: bool)
        ensures
            r == is_system_name(self@),
    {
        name_is_system(self.name.as_str())
    }

    pub fn duplicate(&self) -> (r: Self)
        ensures
            r@ == self@,
    {
        proof {
            use_type_invariant(&*self);
        }
        TableName { name: self.name.clone() }
    }
}

impl Clone for TableName {
    fn clone(&self) -> (r: Self)
        ensures
            r@ == self@,
    {
        self.duplicate()
    }
}

/// Whether the name is that of a system table.
pub fn name_is_system(name: &str) -> (r: bool)
    ensures
        r == is_system_name(name@),
{
    name.unicode_len() > 0 && name.get_char(0) == '_'
}

/// Where a placement map was loaded from.
///
/// The static config source is each process's startup configuration. The
/// replicated source is placement metadata owned by the cluster.
#[derive(Clone, Copy, Debug, PartialEq, Eq, Structural)]
pub enum PlacementMetadataSource {
    StaticConfig,
    Replicated,
}

/// Logical object owned by a partition.
///
/// Only whole tables are routed. Keeping the target explicit prevents the
/// control-plane model from baking in table-only ownership.
#[derive(Clone, Debug, PartialEq, Eq, PartialOrd, Ord)]
pub enum PlacementTarget {
    Table(TableName),
}

/// One ownership rule in the placement metadata.
#[derive(Clone, Debug, PartialEq, Eq)]
pub struct PlacementRule {
    pub target: PlacementTarget,
    pub owner: PartitionId,
}

impl PlacementRule {
    /// The table that the rule places, and where.
    pub open spec fn assignment(self) -> (Seq<char>, PartitionId) {
        match self.target {
            PlacementTarget::Table(table) => (table@, self.owner),
        }
    }
}

/// Static placement inputs from process config.
pub struct StaticPlacementConfig<'a> {
    pub table_assignments: &'a str,
    pub num_partitions: u32,
    pub placement_version: PlacementVersion,
}

/// Versioned placement metadata used to build runtime routing state.
#[derive(Clone, Debug)]
pub struct PlacementMetadata {
    source: PlacementMetadataSource,
    version: PlacementVersion,
    num_partitions: u32,
    rules: SortedMap<String, PartitionId>,
}

/// What [`PlacementMetadata`] states.
pub struct MetadataView {
    pub source: PlacementMetadataSource,
    pub version: PlacementVersion,
    pub num_partitions: u32,
    pub rules: Map<Seq<char>, PartitionId>,
}

impl View for PlacementMetadata {
    type V = MetadataView;

    closed spec fn view(&self) -> MetadataView {
        MetadataView {
            source: self.source,
            version: self.version,
            num_partitions: self.num_partitions,
            rules: self.rules@,
        }
    }
}

/// The metadata that a partition map is built from.
pub open spec fn metadata_of(
    map: PartitionMapView,
    source: PlacementMetadataSource,
) -> MetadataView {
    MetadataView {
        source,
        version: map.placement_version,
        num_partitions: map.num_partitions,
        rules: map.assignments,
    }
}

/// The partition map of the node that owns `local_partition`.
pub open spec fn routing_of(
    metadata: MetadataView,
    local_partition: PartitionId,
) -> PartitionMapView {
    PartitionMapView {
        assignments: metadata.rules,
        local_partition,
        num_partitions: metadata.num_partitions,
        placement_version: metadata.version,
    }
}

/// A partition map is built again from its metadata, and the metadata from the
/// partition map of any node.
pub proof fn placement_survives_its_metadata(
    map: PartitionMapView,
    metadata: MetadataView,
    source: PlacementMetadataSource,
    local_partition: PartitionId,
)
    ensures
        routing_of(metadata_of(map, source), map.local_partition) == map,
        metadata_of(routing_of(metadata, local_partition), metadata.source) == metadata,
{
}

/// The assignment that one piece of the configuration states: a table name, an
/// equals sign and a partition number, white space around each.
pub open spec fn piece_assignment(piece: Seq<char>) -> Option<(Seq<char>, PartitionId)> {
    let pair = text::trim(piece);
    let i = text::find(pair, '=');
    if i < pair.len() {
        let table = text::trim(pair.take(i));
        let partition = text::parsed_u32(text::trim(pair.skip(i + 1)));
        if is_table_name(table) && partition is Some {
            Some((table, PartitionId(partition->Some_0)))
        } else {
            None
        }
    } else {
        None
    }
}

/// The assignments of a list of pieces; of two for one table the later one
/// holds.
pub open spec fn assignments_of(pieces: Seq<Seq<char>>) -> Map<Seq<char>, PartitionId>
    decreases pieces.len(),
{
    if pieces.len() == 0 {
        Map::empty()
    } else {
        let earlier = assignments_of(pieces.drop_last());
        match piece_assignment(pieces.last()) {
            Some((table, partition)) => earlier.insert(table, partition),
            None => earlier,
        }
    }
}

/// What is assigned is tables.
pub open spec fn assigns_tables(assignments: Map<Seq<char>, PartitionId>) -> bool {
    forall|table: Seq<char>| #[trigger]
        assignments.dom().contains(table) ==> is_table_name(table)
}

proof fn lemma_pieces_assign_tables(pieces: Seq<Seq<char>>)
    ensures
        assigns_tables(assignments_of(pieces)),
    decreases pieces.len(),
{
    if pieces.len() > 0 {
        lemma_pieces_assign_tables(pieces.drop_last());
    }
}

/// The assignments that a configuration string states.
pub open spec fn configured_assignments(config: Seq<char>) -> Map<Seq<char>, PartitionId> {
    assignments_of(text::split(config, ','))
}

/// Reads one piece of the configuration.
fn read_piece(config: &str, chars: &Vec<char>, from: usize, to: usize) -> (r: Option<
    (String, PartitionId),
>)
    requires
        chars@ == config@,
        from <= to <= chars@.len(),
    ensures
        match r {
            Some((table, partition)) => piece_assignment(
                chars@.subrange(from as int, to as int),
            ) == Some((table@, partition)),
            None => piece_assignment(chars@.subrange(from as int, to as int)) is None,
        },
{
    let (a, b) = text::trimmed_range(chars, from, to);
    let ghost pair = chars@.subrange(a as int, b as int);
    let i: usize = text::position_of(chars, a, b, '=');
    if i == b {
        return None;
    }
    proof {
        text::find_is_first(pair, '=');
        assert(pair.take(i - a) =~= chars@.subrange(a as int, i as int));
        assert(pair.skip(i - a + 1) =~= chars@.subrange(i + 1, b as int));
    }
    let (t0, t1) = text::trimmed_range(chars, a, i);
    let (p0, p1) = text::trimmed_range(chars, i + 1, b);
    if !names_table(chars, t0, t1) {
        return None;
    }
    match text::parse_u32(chars, p0, p1) {
        Some(partition) => Some((config.substring_char(t0, t1).to_owned(), PartitionId(partition))),
        None => None,
    }
}

impl PlacementMetadata {
    pub closed spec fn wf(&self) -> bool {
        self.rules.wf() && assigns_tables(self.rules@)
    }

    /// Every rule is for a table.
    pub proof fn rules_name_tables(&self)
        requires
            self.wf(),
        ensures
            assigns_tables(self@.rules),
    {
    }

    /// The metadata that a process is started with.
    pub fn from_static_config(config: StaticPlacementConfig<'_>) -> (r: Self)
        ensures
            r.wf(),
            r@ == (MetadataView {
                source: PlacementMetadataSource::StaticConfig,
                version: config.placement_version,
                num_partitions: config.num_partitions,
                rules: configured_assignments(config.table_assignments@),
            }),
    {
        let mut rules: SortedMap<String, PartitionId> = SortedMap::new();
        let chars = text::chars_of(config.table_assignments);
        let ghost s = config.table_assignments@;
        let mut from: usize = 0;
        let ghost mut done: Seq<Seq<char>> = Seq::empty();
        proof {
            assert(chars@.subrange(0, chars@.len() as int) =~= s);
            assert(done + text::split(s, ',') =~= text::split(s, ','));
        }
        loop
            invariant_except_break
                done + text::split(chars@.subrange(from as int, chars@.len() as int), ',')
                    == text::split(s, ','),
            invariant
                rules.wf(),
                chars@ == s,
                s == config.table_assignments@,
                from <= chars@.len(),
                rules@ == assignments_of(done),
            ensures
                rules@ == configured_assignments(s),
            decreases chars@.len() - from,
        {
            let ghost rest = chars@.subrange(from as int, chars@.len() as int);
            let to: usize = text::position_of(&chars, from, chars.len(), ',');
            let piece = read_piece(config.table_assignments, &chars, from, to);
            let ghost earlier = done;
            proof {
                text::find_is_first(rest, ',');
                let here = chars@.subrange(from as int, to as int);
                done = done.push(here);
                assert(done.drop_last() =~= earlier);
                assert(rest.take(to - from) =~= here);
                if to < chars@.len() {
                    assert(rest.skip(to - from + 1) =~= chars@.subrange(
                        to + 1,
                        chars@.len() as int,
                    ));
                    assert(earlier + (seq![here] + text::split(
                        rest.skip(to - from + 1),
                        ',',
                    )) =~= done + text::split(rest.skip(to - from + 1), ','));
                } else {
                    assert(here =~= rest);
                    assert(earlier + seq![rest] =~= done);
                }
            }
            if let Some((table, partition)) = piece {
                rules.insert(table, partition);
            }
            if to == chars.len() {
                break;
            }
            from = to + 1;
        }
        proof {
            lemma_pieces_assign_tables(text::split(s, ','));
        }
        PlacementMetadata {
            source: PlacementMetadataSource::StaticConfig,
            version: config.placement_version,
            num_partitions: config.num_partitions,
            rules,
        }
    }

    /// The metadata that a partition map was built from.
    pub fn from_partition_map(
        partition_map: &PartitionMap,
        source: PlacementMetadataSource,
    ) -> (r: Self)
        requires
            partition_map.wf(),
        ensures
            r.wf(),
            r@ == metadata_of(partition_map@, source),
    {
        PlacementMetadata {
            source,
            version: partition_map.placement_version,
            num_partitions: partition_map.num_partitions,
            rules: duplicate_assignments(&partition_map.assignments),
        }
    }

    pub fn source(&self) -> (r: PlacementMetadataSource)
        ensures
            r == self@.source,
    {
        self.source
    }

    pub fn version(&self) -> (r: PlacementVersion)
        ensures
            r == self@.version,
    {
        self.version
    }

    pub fn num_partitions(&self) -> (r: u32)
        ensures
            r == self@.num_partitions,
    {
        self.num_partitions
    }

    /// The rules, in the order of their targets.
    pub fn rules(&self) -> (r: Vec<PlacementRule>)
        requires
            self.wf(),
        ensures
            forall|i: int, j: int|
                0 <= i < j < r@.len() ==> text::text_before(
                    (#[trigger] r@[i]).assignment().0,
                    (#[trigger] r@[j]).assignment().0,
                ),
            forall|i: int|
                0 <= i < r@.len() ==> self@.rules.dom().contains((#[trigger] r@[i]).assignment().0)
                    && self@.rules[r@[i].assignment().0] == r@[i].assignment().1,
            forall|table: Seq<char>| #[trigger]
                self@.rules.dom().contains(table) ==> exists|i: int|
                    0 <= i < r@.len() && (#[trigger] r@[i]).assignment().0 == table,
    {
        let mut out: Vec<PlacementRule> = Vec::new();
        let mut i: usize = 0;
        proof {
            self.rules.entries_agree();
        }
        while i < self.rules.len()
            invariant
                self.wf(),
                i <= self.rules.keys().len(),
                self.rules.keys().len() == self.rules.values().len(),
                out@.len() == i,
                forall|k: int|
                    0 <= k < i ==> (#[trigger] out@[k]).assignment() == (
                        self.rules.keys()[k],
                        self.rules.values()[k],
                    ),
            decreases self.rules.keys().len() - i,
        {
            proof {
                self.rules.entries_agree();
                assert(self.rules@.dom().contains(self.rules.keys()[i as int]));
            }
            let table = TableName { name: self.rules.key_at(i).clone() };
            out.push(
                PlacementRule {
                    target: PlacementTarget::Table(table),
                    owner: *self.rules.value_at(i),
                },
            );
            i = i + 1;
        }
        proof {
            self.rules.entries_agree();
            assert forall|table: Seq<char>| #[trigger]
                self@.rules.dom().contains(table) implies exists|i: int|
                0 <= i < out@.len() && (#[trigger] out@[i]).assignment().0 == table by {
                assert(self.rules.keys().contains(table));
                let k = self.rules.keys().index_of(table);
                assert(out@[k].assignment().0 == table);
            }
        }
        out
    }

    /// The tables and their owners.
    pub fn table_assignments(&self) -> (r: SortedMap<String, PartitionId>)
        requires
            self.wf(),
        ensures
            r.wf(),
            r@ == self@.rules,
    {
        duplicate_assignments(&self.rules)
    }

    /// The routing map for the node that owns `local_partition`.
    pub fn into_partition_map(&self, local_partition: PartitionId) -> (r: PartitionMap)
        requires
            self.wf(),
        ensures
            r.wf(),
            r@ == routing_of(self@, local_partition),
    {
        PartitionMap {
            assignments: self.table_assignments(),
            local_partition,
            num_partitions: self.num_partitions,
            placement_version: self.version,
        }
    }
}

/// The same assignments.
fn duplicate_assignments(map: &SortedMap<String, PartitionId>) -> (r: SortedMap<
    String,
    PartitionId,
>)
    requires
        map.wf(),
    ensures
        r.wf(),
        r@ == map@,
{
    let mut out: SortedMap<String, PartitionId> = SortedMap::new();
    let mut i: usize = 0;
    let ghost keys = map.keys();
    while i < map.len()
        invariant
            map.wf(),
            out.wf(),
            keys == map.keys(),
            i <= keys.len(),
            forall|t: Seq<char>| #[trigger]
                out@.dom().contains(t) <==> exists|k: int| 0 <= k < i && #[trigger] keys[k] == t,
            forall|t: Seq<char>| #[trigger] out@.dom().contains(t) ==> out@[t] == map@[t],
        decreases keys.len() - i,
    {
        proof {
            map.entries_agree();
            assert(map@[keys[i as int]] == map.values()[i as int]);
        }
        out.insert(map.key_at(i).clone(), *map.value_at(i));
        i = i + 1;
    }
    proof {
        map.entries_agree();
        assert forall|t: Seq<char>| map@.dom().contains(t) implies out@.dom().contains(t) by {
            assert(keys.contains(t));
            let k = keys.index_of(t);
            assert(keys[k] == t);
        }
        assert(out@ =~= map@);
    }
    out
}

/// Why placement metadata was refused.
#[derive(Clone, Copy, Debug, PartialEq, Eq, Structural)]
pub enum PlacementError {
    LocalPartitionOutside { local_partition: PartitionId, num_partitions: u32 },
    VersionDowngrade { current: PlacementVersion, offered: PlacementVersion },
}

impl PlacementError {
    /// The text of the error.
    pub open spec fn text(self) -> Seq<char> {
        match self {
            PlacementError::LocalPartitionOutside { local_partition, num_partitions } => {
                "Local partition "@ + local_partition.printed()
                    + " is outside placement metadata with "@ + text::decimal(
                    num_partitions as nat,
                ) + " partitions"@
            },
            PlacementError::VersionDowngrade { current, offered } => {
                "Refusing to refresh placement metadata from "@ + current.printed() + " down to "@
                    + offered.printed()
            },
        }
    }

    /// The text of the error.
    pub fn message(&self) -> (r: String)
        ensures
            r@ == self.text(),
    {
        match self {
            PlacementError::LocalPartitionOutside { local_partition, num_partitions } => {
                let mut s = "Local partition ".to_owned();
                s.append(local_partition.print().as_str());
                s.append(" is outside placement metadata with ");
                text::push_decimal(&mut s, *num_partitions as u64);
                s.append(" partitions");
                s
            },
            PlacementError::VersionDowngrade { current, offered } => {
                let mut s = "Refusing to refresh placement metadata from ".to_owned();
                s.append(current.print().as_str());
                s.append(" down to ");
                s.append(offered.print().as_str());
                s
            },
        }
    }
}

/// Refreshable placement state shared by routing components.
///
/// Callers take a `PartitionMap` snapshot before classifying or coordinating a
/// transaction. That keeps a single transaction internally consistent even if a
/// newer placement version is installed concurrently.
#[derive(Clone, Debug)]
pub struct PlacementState {
    local_partition: PartitionId,
    metadata: PlacementMetadata,
}

/// What a [`PlacementState`] holds.
pub struct PlacementStateView {
    pub local_partition: PartitionId,
    pub metadata: MetadataView,
}

impl View for PlacementState {
    type V = PlacementStateView;

    closed spec fn view(&self) -> PlacementStateView {
        PlacementStateView { local_partition: self.local_partition, metadata: self.metadata@ }
    }
}

/// The error owed to metadata that has no place for the local partition.
pub open spec fn local_partition_error(
    local_partition: PartitionId,
    num_partitions: u32,
) -> Option<PlacementError> {
    if local_partition.0 < num_partitions {
        None
    } else {
        Some(PlacementError::LocalPartitionOutside { local_partition, num_partitions })
    }
}

/// The error owed to metadata that is offered as a refresh.
pub open spec fn refresh_error(
    state: PlacementStateView,
    metadata: MetadataView,
) -> Option<PlacementError> {
    let outside = local_partition_error(state.local_partition, metadata.num_partitions);
    if outside is Some {
        outside
    } else if metadata.version.0 < state.metadata.version.0 {
        Some(
            PlacementError::VersionDowngrade {
                current: state.metadata.version,
                offered: metadata.version,
            },
        )
    } else {
        None
    }
}

impl PlacementState {
    pub closed spec fn wf(&self) -> bool {
        self.metadata.wf()
    }

    pub fn new(local_partition: PartitionId, metadata: PlacementMetadata) -> (r: Result<
        Self,
        PlacementError,
    >)
        requires
            metadata.wf(),
        ensures
            match r {
                Ok(state) => {
                    &&& local_partition_error(local_partition, metadata@.num_partitions) is None
                    &&& state.wf()
                    &&& state@ == (PlacementStateView { local_partition, metadata: metadata@ })
                },
                Err(error) => local_partition_error(local_partition, metadata@.num_partitions)
                    == Some(error),
            },
    {
        match Self::validate_local_partition(local_partition, metadata.num_partitions) {
            Some(error) => Err(error),
            None => Ok(PlacementState { local_partition, metadata }),
        }
    }

    pub fn from_partition_map(partition_map: PartitionMap) -> (r: Self)
        requires
            partition_map.wf(),
        ensures
            r.wf(),
            r@ == (PlacementStateView {
                local_partition: partition_map@.local_partition,
                metadata: metadata_of(partition_map@, PlacementMetadataSource::StaticConfig),
            }),
    {
        let metadata = PlacementMetadata::from_partition_map(
            &partition_map,
            PlacementMetadataSource::StaticConfig,
        );
        PlacementState { local_partition: partition_map.local_partition, metadata }
    }

    /// A consistent snapshot of the current routing.
    pub fn partition_map(&self) -> (r: PartitionMap)
        requires
            self.wf(),
        ensures
            r.wf(),
            r@ == routing_of(self@.metadata, self@.local_partition),
    {
        self.metadata.into_partition_map(self.local_partition)
    }

    /// Installs metadata of the same or a newer version.
    pub fn refresh(&mut self, metadata: PlacementMetadata) -> (r: Result<(), PlacementError>)
        requires
            old(self).wf(),
            metadata.wf(),
        ensures
            final(self).wf(),
            match r {
                Ok(_) => {
                    &&& refresh_error(old(self)@, metadata@) is None
                    &&& final(self)@ == (PlacementStateView { metadata: metadata@, ..old(self)@ })
                },
                Err(error) => {
                    &&& refresh_error(old(self)@, metadata@) == Some(error)
                    &&& final(self)@ == old(self)@
                },
            },
    {
        if let Some(error) = Self::validate_local_partition(
            self.local_partition,
            metadata.num_partitions,
        ) {
            return Err(error);
        }
        if metadata.version.0 < self.metadata.version.0 {
            return Err(
                PlacementError::VersionDowngrade {
                    current: self.metadata.version,
                    offered: metadata.version,
                },
            );
        }
        self.metadata = metadata;
        Ok(())
    }

    pub fn placement_version(&self) -> (r: PlacementVersion)
        ensures
            r == self@.metadata.version,
    {
        self.metadata.version
    }

    pub fn local_partition(&self) -> (r: PartitionId)
        ensures
            r == self@.local_partition,
    {
        self.local_partition
    }

    pub fn num_partitions(&self) -> (r: u32)
        ensures
            r == self@.metadata.num_partitions,
    {
        self.metadata.num_partitions
    }

    fn validate_local_partition(local_partition: PartitionId, num_partitions: u32) -> (r: Option<
        PlacementError,
    >)
        ensures
            r == local_partition_error(local_partition, num_partitions),
    {
        if local_partition.0 < num_partitions {
            None
        } else {
            Some(PlacementError::LocalPartitionOutside { local_partition, num_partitions })
        }
    }
}

/// The placement after the first `n` offers of metadata. A refused one changes
/// nothing.
pub open spec fn after_refreshes(
    state: PlacementStateView,
    offered: Seq<MetadataView>,
    n: nat,
) -> PlacementStateView
    decreases n,
{
    if n == 0 {
        state
    } else {
        let before = after_refreshes(state, offered, (n - 1) as nat);
        if refresh_error(before, offered[n - 1]) is None {
            PlacementStateView { metadata: offered[n - 1], ..before }
        } else {
            before
        }
    }
}

/// However often metadata is offered, the placement version never falls, the
/// local partition stays the same and, once inside the placement, stays inside
/// it. An offer is refused exactly where it would do otherwise.
pub proof fn refreshes_never_lower_the_version(
    state: PlacementStateView,
    offered: Seq<MetadataView>,
    m: nat,
    n: nat,
)
    requires
        m <= n <= offered.len(),
    ensures
        ({
            let earlier = after_refreshes(state, offered, m);
            let later = after_refreshes(state, offered, n);
            &&& earlier.metadata.version.0 <= later.metadata.version.0
            &&& later.local_partition == earlier.local_partition
            &&& earlier.local_partition.0 < earlier.metadata.num_partitions
                ==> later.local_partition.0 < later.metadata.num_partitions
            &&& later.metadata == earlier.metadata || exists|i: int|
                m <= i < n && later.metadata == #[trigger] offered[i]
            &&& n < offered.len() ==> (refresh_error(later, offered[n as int]) is Some
                <==> offered[n as int].version.0 < later.metadata.version.0
                || later.local_partition.0 >= offered[n as int].num_partitions)
        }),
    decreases n - m,
{
    if m < n {
        refreshes_never_lower_the_version(state, offered, m, (n - 1) as nat);
        let before = after_refreshes(state, offered, (n - 1) as nat);
        if refresh_error(before, offered[n - 1]) is None {
            assert(after_refreshes(state, offered, n).metadata == offered[n - 1]);
        }
    }
}

/// Maps table names to partitions.
///
/// System tables (starting with `_`) are always on partition 0. User tables are
/// assigned based on the configuration. Unassigned user tables default to
/// partition 0.
#[derive(Clone, Debug)]
pub struct PartitionMap {
    assignments: SortedMap<String, PartitionId>,
    local_partition: PartitionId,
    num_partitions: u32,
    placement_version: PlacementVersion,
}

/// What a [`PartitionMap`] states.
pub struct PartitionMapView {
    pub assignments: Map<Seq<char>, PartitionId>,
    pub local_partition: PartitionId,
    pub num_partitions: u32,
    pub placement_version: PlacementVersion,
}

impl PartitionMapView {
    /// The partition that owns the table.
    pub open spec fn owner_of(self, table: Seq<char>) -> PartitionId {
        if is_system_name(table) || !self.assignments.dom().contains(table) {
            PartitionId(0)
        } else {
            self.assignments[table]
        }
    }
}

impl View for PartitionMap {
    type V = PartitionMapView;

    closed spec fn view(&self) -> PartitionMapView {
        PartitionMapView {
            assignments: self.assignments@,
            local_partition: self.local_partition,
            num_partitions: self.num_partitions,
            placement_version: self.placement_version,
        }
    }
}

/// System tables belong to partition 0, whatever the assignments say.
pub proof fn system_tables_stay_on_the_default_partition(map: PartitionMapView, table: Seq<char>)
    requires
        is_system_name(table),
    ensures
        map.owner_of(table) == PartitionId(0),
{
}

impl PartitionMap {
    pub closed spec fn wf(&self) -> bool {
        self.assignments.wf() && assigns_tables(self.assignments@)
    }

    /// What is assigned is tables.
    pub proof fn assignments_name_tables(&self)
        requires
            self.wf(),
        ensures
            assigns_tables(self@.assignments),
    {
    }

    /// Create a partition map from a config string.
    ///
    /// Format: `"table1=1,table2=1,table3=2,table4=2"`
    ///
    /// Tables not listed default to partition 0.
    /// System tables (starting with `_`) are always partition 0 regardless.
    pub fn from_config(
        config: &str,
        local_partition: PartitionId,
        num_partitions: u32,
    ) -> (r: Self)
        ensures
            r.wf(),
            r@ == (PartitionMapView {
                assignments: configured_assignments(config@),
                local_partition,
                num_partitions,
                placement_version: PlacementVersion(0),
            }),
    {
        Self::from_config_with_version(
            config,
            local_partition,
            num_partitions,
            PlacementVersion::static_version(),
        )
    }

    /// Create a partition map from a config string and placement version.
    pub fn from_config_with_version(
        config: &str,
        local_partition: PartitionId,
        num_partitions: u32,
        placement_version: PlacementVersion,
    ) -> (r: Self)
        ensures
            r.wf(),
            r@ == (PartitionMapView {
                assignments: configured_assignments(config@),
                local_partition,
                num_partitions,
                placement_version,
            }),
    {
        PlacementMetadata::from_static_config(
            StaticPlacementConfig { table_assignments: config, num_partitions, placement_version },
        ).into_partition_map(local_partition)
    }

    /// Create a single-partition map (all tables on partition 0).
    pub fn single_partition() -> (r: Self)
        ensures
            r.wf(),
            r@ == (PartitionMapView {
                assignments: Map::empty(),
                local_partition: PartitionId(0),
                num_partitions: 1,
                placement_version: PlacementVersion(0),
            }),
    {
        PartitionMap {
            assignments: SortedMap::new(),
            local_partition: PartitionId::default_partition(),
            num_partitions: 1,
            placement_version: PlacementVersion::static_version(),
        }
    }

    /// Get the partition that owns the given table.
    ///
    /// System tables (starting with `_`) always return partition 0. User tables
    /// return their configured partition, or partition 0 if not explicitly
    /// assigned.
    pub fn partition_for_table(&self, table: &TableName) -> (r: PartitionId)
        requires
            self.wf(),
        ensures
            r == self@.owner_of(table@),
    {
        if table.is_system() {
            return PartitionId::default_partition();
        }
        match self.assignments.get(&table.name) {
            Some(partition) => *partition,
            None => PartitionId::default_partition(),
        }
    }

    /// Check if this node owns the given table.
    pub fn is_local(&self, table: &TableName) -> (r: bool)
        requires
            self.wf(),
        ensures
            r == (self@.owner_of(table@) == self@.local_partition),
    {
        self.partition_for_table(table).0 == self.local_partition.0
    }

    /// Get all tables assigned to a specific partition, in increasing order.
    pub fn tables_for_partition(&self, partition: PartitionId) -> (r: Vec<TableName>)
        requires
            self.wf(),
        ensures
            forall|i: int, j: int|
                0 <= i < j < r@.len() ==> text::text_before((#[trigger] r@[i])@, (
                #[trigger] r@[j])@),
            forall|i: int|
                0 <= i < r@.len() ==> self@.assignments.dom().contains((#[trigger] r@[i])@)
                    && self@.assignments[r@[i]@] == partition,
            forall|table: Seq<char>|
                self@.assignments.dom().contains(table) && #[trigger] self@.assignments[table]
                    == partition ==> exists|i: int|
                    0 <= i < r@.len() && (#[trigger] r@[i])@ == table,
    {
        let mut out: Vec<TableName> = Vec::new();
        let ghost keys = self.assignments.keys();
        let ghost values = self.assignments.values();
        let ghost mut from: Seq<int> = Seq::empty();
        let mut i: usize = 0;
        proof {
            self.assignments.entries_agree();
        }
        while i < self.assignments.len()
            invariant
                self.wf(),
                keys == self.assignments.keys(),
                values == self.assignments.values(),
                keys.len() == values.len(),
                i <= keys.len(),
                out@.len() == from.len(),
                forall|a: int| 0 <= a < from.len() ==> 0 <= #[trigger] from[a] < i,
                forall|a: int, b: int|
                    0 <= a < b < from.len() ==> #[trigger] from[a] < #[trigger] from[b],
                forall|a: int|
                    0 <= a < from.len() ==> (#[trigger] out@[a])@ == keys[from[a]]
                        && values[from[a]] == partition,
                forall|k: int|
                    0 <= k < i && #[trigger] values[k] == partition ==> from.contains(k),
            decreases keys.len() - i,
        {
            let ghost earlier = out@;
            let ghost before = from;
            if self.assignments.value_at(i).0 == partition.0 {
                proof {
                    self.assignments.entries_agree();
                    assert(self.assignments@.dom().contains(keys[i as int]));
                }
                out.push(TableName { name: self.assignments.key_at(i).clone() });
                proof {
                    from = from.push(i as int);
                    assert forall|k: int| 0 <= k < i + 1 && #[trigger] values[k]
                        == partition implies from.contains(k) by {
                        if k == i {
                            assert(from[from.len() - 1] == k);
                        } else {
                            let a = before.index_of(k);
                            assert(before.contains(k));
                            assert(from[a] == k);
                        }
                    }
                }
            }
            proof {
                assert forall|a: int| 0 <= a < from.len() implies (#[trigger] out@[a])@
                    == keys[from[a]] && values[from[a]] == partition by {
                    if a < before.len() {
                        assert(from[a] == before[a]);
                        assert(out@[a] == earlier[a]);
                    }
                }
            }
            i = i + 1;
        }
        proof {
            self.assignments.entries_agree();
            assert forall|a: int, b: int| 0 <= a < b < out@.len() implies text::text_before(
                (#[trigger] out@[a])@,
                (#[trigger] out@[b])@,
            ) by {
                assert(from[a] < from[b]);
            }
            assert forall|a: int|
                0 <= a < out@.len() implies self@.assignments.dom().contains((#[trigger] out@[a])@)
                && self@.assignments[out@[a]@] == partition by {
                let k = from[a];
                assert(self.assignments@.dom().contains(keys[k]));
            }
            assert forall|table: Seq<char>|
                self@.assignments.dom().contains(table) && #[trigger] self@.assignments[table]
                    == partition implies exists|i: int|
                0 <= i < out@.len() && (#[trigger] out@[i])@ == table by {
                assert(keys.contains(table));
                let k = keys.index_of(table);
                assert(keys[k] == table);
                assert(values[k] == partition);
                assert(from.contains(k));
                let a = from.index_of(k);
                assert(out@[a]@ == table);
            }
        }
        out
    }

    /// Get this node's partition ID.
    pub fn local_partition(&self) -> (r: PartitionId)
        ensures
            r == self@.local_partition,
    {
        self.local_partition
    }

    /// Get the total number of partitions.
    pub fn num_partitions(&self) -> (r: u32)
        ensures
            r == self@.num_partitions,
    {
        self.num_partitions
    }

    /// Get the placement metadata version.
    pub fn placement_version(&self) -> (r: PlacementVersion)
        ensures
            r == self@.placement_version,
    {
        self.placement_version
    }

    /// Get all partition IDs in the cluster.
    pub fn all_partitions(&self) -> (r: Vec<PartitionId>)
        ensures
            r@ == Seq::new(self@.num_partitions as nat, |i: int| PartitionId(i as u32)),
    {
        let mut out: Vec<PartitionId> = Vec::new();
        let mut i: u32 = 0;
        while i < self.num_partitions
            invariant
                i <= self.num_partitions,
                out@.len() == i,
                forall|k: int| 0 <= k < i ==> out@[k] == PartitionId(k as u32),
            decreases self.num_partitions - i,
        {
            out.push(PartitionId(i));
            i = i + 1;
        }
        assert(out@ =~= Seq::new(self@.num_partitions as nat, |i: int| PartitionId(i as u32)));
        out
    }

    /// Get all explicit assignments.
    pub fn assignments(&self) -> (r: &SortedMap<String, PartitionId>)
        ensures
            r@ == self@.assignments,
            self.wf() ==> r.wf(),
    {
        &self.assignments
    }
}

/// What caused a write, where that is known.
#[derive(Clone, Debug, PartialEq, Eq)]
pub struct WriteSource(pub Option<String>);

impl WriteSource {
    /// The name of the cause.
    pub open spec fn name(&self) -> Option<Seq<char>> {
        match self.0 {
            Some(name) => Some(name@),
            None => None,
        }
    }

    pub fn new(name: &str) -> (r: Self)
        ensures
            r.name() == Some(name@),
    {
        WriteSource(Some(name.to_owned()))
    }

    pub fn unknown() -> (r: Self)
        ensures
            r.name() is None,
    {
        WriteSource(None)
    }

    pub fn as_str(&self) -> (r: Option<&str>)
        ensures
            match r {
                Some(name) => self.name() == Some(name@),
                None => self.name() is None,
            },
    {
        match &self.0 {
            Some(name) => Some(name.as_str()),
            None => None,
        }
    }
}

/// The write belongs to a deployment, which the metadata owner coordinates.
pub open spec fn is_deploy(source: Option<Seq<char>>) -> bool {
    source == Some("start_push"@) || source == Some("finish_push"@)
}

/// Whether the write belongs to a deployment.
pub fn uses_metadata_owner(write_source: &WriteSource) -> (r: bool)
    ensures
        r == is_deploy(write_source.name()),
{
    match write_source.as_str() {
        Some(name) => text::same_text(name, "start_push") || text::same_text(name, "finish_push"),
        None => false,
    }
}

/// Returns the authoritative partition for tables that should be coordinated
/// cluster-wide for the current operation.
///
/// - User tables always have a single partition owner.
/// - Deploy metadata operations (`start_push`, `finish_push`) route system
///   tables to the metadata owner on partition 0.
/// - Other system-table writes are node-local operational state and therefore
///   return `None`.
pub fn routed_partition_for_table(
    table: &TableName,
    partition_map: &PartitionMap,
    write_source: &WriteSource,
) -> (r: Option<PartitionId>)
    requires
        partition_map.wf(),
    ensures
        r == (if !is_system_name(table@) || is_deploy(write_source.name()) {
            Some(partition_map@.owner_of(table@))
        } else {
            None
        }),
{
    if !table.is_system() || uses_metadata_owner(write_source) {
        Some(partition_map.partition_for_table(table))
    } else {
        None
    }
}

/// A table belongs where it is assigned, and to partition 0 where it is not. A
/// name that starts with an underscore belongs to partition 0 in any case.
pub proof fn tables_belong_where_they_are_assigned(
    map: PartitionMapView,
    table: Seq<char>,
    rest: Seq<char>,
    owner: PartitionId,
)
    ensures
        map.owner_of(seq!['_'] + rest) == PartitionId(0),
        table.len() > 0 && table[0] != '_' && map.assignments.dom().contains(table)
            && map.assignments[table] == owner ==> map.owner_of(table) == owner,
        !map.assignments.dom().contains(table) ==> map.owner_of(table) == PartitionId(0),
{
}

/// Whatever is assigned anew, the other tables stay where they are, and the owner
/// does not depend on which node asks.
pub proof fn assignments_are_independent(
    map: PartitionMapView,
    table: Seq<char>,
    other: Seq<char>,
    owner: PartitionId,
    asking: PartitionId,
)
    requires
        table != other,
    ensures
        (PartitionMapView {
            assignments: map.assignments.insert(table, owner),
            ..map
        }).owner_of(other) == map.owner_of(other),
        (PartitionMapView { local_partition: asking, ..map }).owner_of(other) == map.owner_of(
            other,
        ),
        table.len() > 0 && table[0] != '_' ==> (PartitionMapView {
            assignments: map.assignments.insert(table, owner),
            ..map
        }).owner_of(table) == owner,
{
}

/// A system table is one whose name starts with an underscore.
pub proof fn system_names_start_with_an_underscore(s: Seq<char>, first: char, rest: Seq<char>)
    ensures
        is_system_name(seq!['_'] + rest),
        first != '_' ==> !is_system_name(seq![first] + rest),
        !is_system_name(Seq::empty()),
{
}

/// A table name has up to 64 letters, digits and underscores, among them one that
/// is no underscore, and no digit in front.
pub proof fn table_names_are_identifiers(s: Seq<char>)
    ensures
        is_table_name(s) <==> {
            &&& 1 <= s.len() <= 64
            &&& !('0' <= s[0] <= '9')
            &&& forall|i: int|
                0 <= i < s.len() ==> {
                    ||| 'a' <= #[trigger] s[i] <= 'z'
                    ||| 'A' <= s[i] <= 'Z'
                    ||| '0' <= s[i] <= '9'
                    ||| s[i] == '_'
                }
            &&& exists|i: int| 0 <= i < s.len() && #[trigger] s[i] != '_'
        },
{
}

/// A piece of a configuration assigns a table to a partition by the name, an
/// equals sign and the number, with any white space around each.
pub proof fn pieces_assign_tables(
    spaces: Seq<Seq<char>>,
    table: Seq<char>,
    partition: u32,
)
    requires
        spaces.len() == 4,
        forall|i: int, k: int|
            0 <= i < 4 && 0 <= k < spaces[i].len() ==> text::is_white_space(
                #[trigger] spaces[i][k],
            ),
        is_table_name(table),
    ensures
        piece_assignment(
            spaces[0] + table + spaces[1] + seq!['='] + spaces[2] + text::decimal(partition as nat)
                + spaces[3],
        ) == Some((table, PartitionId(partition))),
{
    let number = text::decimal(partition as nat);
    text::decimal_digits_read_back(partition as nat);
    text::printed_numbers_are_parsed(partition as nat);
    let left = table + spaces[1];
    let right = spaces[2] + number;
    let inner = left + seq!['='] + right;
    let piece = spaces[0] + table + spaces[1] + seq!['='] + spaces[2] + number + spaces[3];
    assert(piece =~= spaces[0] + inner + spaces[3]);
    assert(is_name_char(table[0]));
    assert(is_name_char(table.last()));
    assert(text::is_digit(number[0]));
    assert(text::is_digit(number.last()));
    assert(inner[0] == table[0]);
    assert(inner.last() == number.last());
    text::padding_is_trimmed(spaces[0], inner, spaces[3]);
    assert(!left.contains('=')) by {
        if left.contains('=') {
            let i = left.index_of('=');
            if i < table.len() {
                assert(is_name_char(table[i]));
            } else {
                assert(text::is_white_space(spaces[1][i - table.len()]));
            }
        }
    }
    text::separators_are_found(left, '=', right);
    let i = left.len() as int;
    assert(inner.take(i) =~= left);
    assert(inner.skip(i + 1) =~= right);
    assert(left =~= Seq::<char>::empty() + table + spaces[1]);
    assert(right =~= spaces[2] + number + Seq::<char>::empty());
    text::padding_is_trimmed(Seq::empty(), table, spaces[1]);
    text::padding_is_trimmed(spaces[2], number, Seq::empty());
}

/// A piece assigns nothing that it does not name: what it assigns is a table name
/// in it before an equals sign. A piece without an equals sign assigns nothing.
pub proof fn other_pieces_assign_nothing(piece: Seq<char>)
    ensures
        piece_assignment(piece) matches Some((table, partition)) ==> is_table_name(table),
        !piece.contains('=') ==> piece_assignment(piece) is None,
{
    let pair = text::trim(piece);
    let at = text::trimming_takes_the_outer_white_space(piece);
    text::find_is_first(pair, '=');
    let i = text::find(pair, '=');
    if i < pair.len() {
        assert(pair[i] == piece[at.0 + i]);
        assert(piece.contains(piece[at.0 + i]));
    }
}

/// Of several pieces for one table the last one holds, and a table that no piece
/// names is not assigned.
pub proof fn last_assignment_holds(pieces: Seq<Seq<char>>, table: Seq<char>, i: int)
    ensures
        0 <= i < pieces.len() && (piece_assignment(pieces[i]) matches Some((named, partition))
            && named == table && (forall|k: int|
            i < k < pieces.len() ==> (piece_assignment(#[trigger] pieces[k]) matches Some((
                later,
                _p,
            )) ==> later != table))) ==> assignments_of(pieces).dom().contains(table)
            && Some((table, assignments_of(pieces)[table])) == piece_assignment(pieces[i]),
        (forall|k: int|
            0 <= k < pieces.len() ==> (piece_assignment(#[trigger] pieces[k]) matches Some((
                named,
                _p,
            )) ==> named != table)) ==> !assignments_of(pieces).dom().contains(table),
    decreases pieces.len(),
{
    if pieces.len() > 0 {
        let earlier = pieces.drop_last();
        assert forall|k: int| 0 <= k < earlier.len() implies #[trigger] earlier[k]
            == pieces[k] by {}
        last_assignment_holds(earlier, table, i);
        let last = pieces.len() - 1;
        assert(pieces.last() == pieces[last]);
    }
}

/// A configuration assigns what its pieces between the commas assign, the last
/// piece for a table counting.
pub proof fn configurations_are_lists_of_pieces(pieces: Seq<Seq<char>>)
    requires
        pieces.len() > 0,
        forall|i: int| 0 <= i < pieces.len() ==> !(#[trigger] pieces[i]).contains(','),
    ensures
        configured_assignments(text::joined(pieces, ',')) == assignments_of(pieces),
{
    text::joined_pieces_split_again(pieces, ',');
}

/// A node's map follows the metadata: its rules, its version and its number of
/// partitions.
pub proof fn routing_follows_the_metadata(
    metadata: MetadataView,
    local_partition: PartitionId,
    table: Seq<char>,
)
    ensures
        ({
            let map = routing_of(metadata, local_partition);
            &&& map.local_partition == local_partition
            &&& map.num_partitions == metadata.num_partitions
            &&& map.placement_version == metadata.version
            &&& table.len() > 0 && table[0] != '_' && metadata.rules.dom().contains(table)
                ==> map.owner_of(table) == metadata.rules[table]
            &&& !metadata.rules.dom().contains(table) ==> map.owner_of(table) == PartitionId(0)
        }),
{
}

/// Metadata is refused for want of a place for the local partition, and
/// otherwise only where it is older than what is installed. The newest is always
/// taken.
pub proof fn refusals_name_their_cause(state: PlacementStateView, offered: MetadataView)
    ensures
        refresh_error(state, offered) == Some(
            PlacementError::LocalPartitionOutside {
                local_partition: state.local_partition,
                num_partitions: offered.num_partitions,
            },
        ) <==> state.local_partition.0 >= offered.num_partitions,
        refresh_error(state, offered) == Some(
            PlacementError::VersionDowngrade {
                current: state.metadata.version,
                offered: offered.version,
            },
        ) <==> state.local_partition.0 < offered.num_partitions && offered.version.0
            < state.metadata.version.0,
        refresh_error(state, offered) is None <==> state.local_partition.0 < offered.num_partitions
            && state.metadata.version.0 <= offered.version.0,
        local_partition_error(state.local_partition, offered.num_partitions) is None
            <==> state.local_partition.0 < offered.num_partitions,
{
}

/// A write belongs to a deployment exactly where a push started or finished it.
pub proof fn pushes_are_deployments(source: Option<Seq<char>>)
    ensures
        is_deploy(source) <==> (source matches Some(name) && (name == "start_push"@ || name
            == "finish_push"@)),
        !is_deploy(None),
{
}

/// Partitions and versions print by their number, each in its own way.
pub proof fn printed_numbers_tell_partitions_apart(a: PartitionId, b: PartitionId)
    ensures
        a.printed() == b.printed() ==> a == b,
        a.printed() == "partition-"@ + text::decimal(a.0 as nat),
{
    if a.printed() == b.printed() {
        let n = "partition-"@.len() as int;
        assert(a.printed().skip(n) =~= text::decimal(a.0 as nat));
        assert(b.printed().skip(n) =~= text::decimal(b.0 as nat));
        text::decimal_is_injective(a.0 as nat, b.0 as nat);
    }
}

/// Refused metadata tells the version that is there before the one that was
/// offered.
pub proof fn refused_metadata_tells_both_sides(
    current: PlacementVersion,
    offered: PlacementVersion,
    local_partition: PartitionId,
    num_partitions: u32,
)
    ensures
        (PlacementError::VersionDowngrade { current, offered }).text()
            == "Refusing to refresh placement metadata from "@ + ("placement-version-"@
            + text::decimal(current.0 as nat)) + " down to "@ + ("placement-version-"@
            + text::decimal(offered.0 as nat)),
        (PlacementError::LocalPartitionOutside { local_partition, num_partitions }).text()
            == "Local partition "@ + ("partition-"@ + text::decimal(local_partition.0 as nat))
            + " is outside placement metadata with "@ + text::decimal(num_partitions as nat)
            + " partitions"@,
{
}

} // verus!
