//! The global symbol graph.
//!
//! Per-file extraction results are merged into one mapping from stable
//! identity to symbol record.  Imports are registered before declarations:
//! an import of an identity already present flips that record's used flag;
//! an import of an unknown identity synthesizes a placeholder record,
//! already marked used.  A declaration overwrites a placeholder's kind and
//! dependencies but never clears a used flag that an import has set.

use vstd::prelude::*;

use crate::decls::decls_view;
use crate::decls::extract_file_decls;
use crate::decls::file_decls;
use crate::decls::EntityType;
use crate::ids::entity_id;
use crate::ids::generate_entity_id;
use crate::imports::edges_view;
use crate::imports::extract_imports;
use crate::imports::extract_imports_spec;
use crate::imports::EdgeModel;
use crate::imports::ImportInfo;
use crate::resolve::paths_view;
use crate::strip::strip_comments;
use crate::strip::strip_spec;
use crate::text::bytes_eq;
use crate::text::copy_bytes;
use crate::text::count_word;
use crate::text::is_entity_used_locally;

verus! {

/// One tracked symbol: an exported declaration, or a placeholder standing
/// for an import whose defining file was not scanned.
pub struct Entity {
    pub id: Vec<u8>,
    pub name: Vec<u8>,
    pub entity_type: EntityType,
    pub file_path: Vec<u8>,
    pub deps: Vec<ImportInfo>,
    pub used: bool,
}

/// The mathematical value of a symbol record.
pub ghost struct EntityModel {
    pub id: Seq<u8>,
    pub name: Seq<u8>,
    pub entity_type: EntityType,
    pub file_path: Seq<u8>,
    pub deps: Seq<EdgeModel>,
    pub used: bool,
}

impl View for Entity {
    type V = EntityModel;

    open spec fn view(&self) -> EntityModel {
        EntityModel {
            id: self.id@,
            name: self.name@,
            entity_type: self.entity_type,
            file_path: self.file_path@,
            deps: edges_view(self.deps@),
            used: self.used,
        }
    }
}

/// A fresh, not-yet-used record for a declaration.
pub open spec fn entity_model_of(
    name: Seq<u8>,
    ty: EntityType,
    file: Seq<u8>,
    deps: Seq<EdgeModel>,
) -> EntityModel {
    EntityModel {
        id: entity_id(file, name),
        name: name,
        entity_type: ty,
        file_path: file,
        deps: deps,
        used: false,
    }
}

impl Entity {
    /// Builds a record for a declaration, deriving its identity from the
    /// defining file and the name; it starts unused.
    pub fn new(name: Vec<u8>, entity_type: EntityType, file_path: Vec<u8>, deps: Vec<ImportInfo>) -> (r:
        Entity)
        ensures
            r@ == entity_model_of(name@, entity_type, file_path@, edges_view(deps@)),
    {
        let id = generate_entity_id(&file_path, &name);
        Entity { id, name, entity_type, file_path, deps, used: false }
    }
}

/// Copies an import edge.
pub fn clone_edge(e: &ImportInfo) -> (r: ImportInfo)
    ensures
        r@ == e@,
{
    ImportInfo { id: copy_bytes(&e.id), name: copy_bytes(&e.name), path: copy_bytes(&e.path) }
}

/// Copies a list of import edges.
pub fn clone_edges(v: &Vec<ImportInfo>) -> (r: Vec<ImportInfo>)
    ensures
        edges_view(r@) == edges_view(v@),
        r@.len() == v@.len(),
{
    let mut r: Vec<ImportInfo> = Vec::new();
    let mut i: usize = 0;
    while i < v.len()
        invariant
            i <= v@.len(),
            r@.len() == i,
            forall|j: int| 0 <= j < i ==> r@[j]@ == v@[j]@,
        decreases v@.len() - i,
    {
        r.push(clone_edge(&v[i]));
        i = i + 1;
    }
    proof {
        assert(edges_view(r@) =~= edges_view(v@));
    }
    r
}

/// Copies a symbol record.
pub fn clone_entity(e: &Entity) -> (r: Entity)
    ensures
        r@ == e@,
{
    Entity {
        id: copy_bytes(&e.id),
        name: copy_bytes(&e.name),
        entity_type: e.entity_type,
        file_path: copy_bytes(&e.file_path),
        deps: clone_edges(&e.deps),
        used: e.used,
    }
}

/// No two records carry the same identity.
pub open spec fn ids_distinct(entries: Seq<Entity>) -> bool {
    forall|i: int, j: int| 0 <= i < j < entries.len() ==> entries[i].id@ != entries[j].id@
}

/// The mapping a list of records denotes, keyed by identity.
pub open spec fn map_of(entries: Seq<Entity>) -> Map<Seq<u8>, EntityModel>
    decreases entries.len(),
{
    if entries.len() == 0 {
        Map::empty()
    } else {
        map_of(entries.drop_last()).insert(entries.last().id@, entries.last()@)
    }
}

/// The global symbol mapping: at most one record per identity.
pub struct EntityMap {
    entries: Vec<Entity>,
}

impl View for EntityMap {
    type V = Map<Seq<u8>, EntityModel>;

    closed spec fn view(&self) -> Map<Seq<u8>, EntityModel> {
        map_of(self.entries@)
    }
}

/// A key is in the mapping exactly when some record carries it.
proof fn lemma_map_of_contains(entries: Seq<Entity>, id: Seq<u8>)
    ensures
        map_of(entries).contains_key(id) <==> exists|i: int|
            0 <= i < entries.len() && entries[i].id@ == id,
    decreases entries.len(),
{
    if entries.len() > 0 {
        lemma_map_of_contains(entries.drop_last(), id);
        if map_of(entries).contains_key(id) {
            if entries.last().id@ == id {
                assert(entries[entries.len() - 1].id@ == id);
            } else {
                let i = choose|i: int|
                    0 <= i < entries.drop_last().len() && entries.drop_last()[i].id@ == id;
                assert(entries[i].id@ == id);
            }
        }
        if exists|i: int| 0 <= i < entries.len() && entries[i].id@ == id {
            let i = choose|i: int| 0 <= i < entries.len() && entries[i].id@ == id;
            if i < entries.len() - 1 {
                assert(entries.drop_last()[i].id@ == id);
            }
        }
    }
}

/// With distinct identities, the mapping sends a record's identity to that
/// record.
proof fn lemma_map_of_get(entries: Seq<Entity>, i: int)
    requires
        ids_distinct(entries),
        0 <= i < entries.len(),
    ensures
        map_of(entries).contains_key(entries[i].id@),
        map_of(entries)[entries[i].id@] == entries[i]@,
    decreases entries.len(),
{
    lemma_map_of_contains(entries, entries[i].id@);
    if i == entries.len() - 1 {
    } else {
        assert(ids_distinct(entries.drop_last()));
        assert(entries.drop_last()[i] == entries[i]);
        lemma_map_of_get(entries.drop_last(), i);
        assert(entries[i].id@ != entries.last().id@);
    }
}

/// Updating one record in place updates its identity's image.
proof fn lemma_map_of_update(entries: Seq<Entity>, i: int, e: Entity)
    requires
        ids_distinct(entries),
        0 <= i < entries.len(),
        e.id@ == entries[i].id@,
    ensures
        map_of(entries.update(i, e)) == map_of(entries).insert(e.id@, e@),
    decreases entries.len(),
{
    let upd = entries.update(i, e);
    if i == entries.len() - 1 {
        assert(upd.drop_last() =~= entries.drop_last());
        assert(upd.last() == e);
    } else {
        assert(ids_distinct(entries.drop_last()));
        assert(entries.drop_last()[i] == entries[i]);
        lemma_map_of_update(entries.drop_last(), i, e);
        assert(upd.drop_last() =~= entries.drop_last().update(i, e));
        assert(upd.last() == entries.last());
        assert(entries.last().id@ != e.id@);
        assert(map_of(entries.drop_last()).insert(e.id@, e@).insert(
            entries.last().id@,
            entries.last()@,
        ) =~= map_of(entries.drop_last()).insert(entries.last().id@, entries.last()@).insert(
            e.id@,
            e@,
        ));
    }
}

/// Appending a record with a fresh identity inserts it.
proof fn lemma_map_of_push(entries: Seq<Entity>, e: Entity)
    ensures
        map_of(entries.push(e)) == map_of(entries).insert(e.id@, e@),
{
    assert(entries.push(e).drop_last() =~= entries);
    assert(entries.push(e).last() == e);
}

/// Registering one import edge: an existing record becomes used; an
/// unknown identity gets a placeholder record, already used.
pub open spec fn register_import_spec(m: Map<Seq<u8>, EntityModel>, e: EdgeModel) -> Map<
    Seq<u8>,
    EntityModel,
> {
    if m.contains_key(e.id) {
        m.insert(e.id, EntityModel { used: true, ..m[e.id] })
    } else {
        m.insert(
            e.id,
            EntityModel {
                id: e.id,
                name: e.name,
                entity_type: EntityType::Unknown,
                file_path: e.path,
                deps: Seq::empty(),
                used: true,
            },
        )
    }
}

/// Registering one declaration: an existing record keeps its identity,
/// name, file and used flag but takes the declared kind and dependencies;
/// an unknown identity is inserted as given.
pub open spec fn register_entity_spec(m: Map<Seq<u8>, EntityModel>, d: EntityModel) -> Map<
    Seq<u8>,
    EntityModel,
> {
    if m.contains_key(d.id) {
        m.insert(d.id, EntityModel { entity_type: d.entity_type, deps: d.deps, ..m[d.id] })
    } else {
        m.insert(d.id, d)
    }
}

impl EntityMap {
    /// The structural invariant: one record per identity.
    pub closed spec fn wf(&self) -> bool {
        ids_distinct(self.entries@)
    }

    /// An empty mapping.
    pub fn new() -> (r: EntityMap)
        ensures
            r.wf(),
            r@ == Map::<Seq<u8>, EntityModel>::empty(),
    {
        EntityMap { entries: Vec::new() }
    }

    /// How many symbols the mapping holds.
    pub fn len(&self) -> (n: usize)
        requires
            self.wf(),
        ensures
            n == self@.dom().len(),
    {
        proof {
            lemma_map_of_len(self.entries@);
        }
        self.entries.len()
    }

    fn find_index(&self, id: &Vec<u8>) -> (r: Option<usize>)
        ensures
            match r {
                Some(i) => i < self.entries@.len() && self.entries@[i as int].id@ == id@,
                None => forall|j: int| 0 <= j < self.entries@.len() ==> self.entries@[j].id@ != id@,
            },
    {
        let mut i: usize = 0;
        while i < self.entries.len()
            invariant
                i <= self.entries@.len(),
                forall|j: int| 0 <= j < i ==> self.entries@[j].id@ != id@,
            decreases self.entries@.len() - i,
        {
            if bytes_eq(&self.entries[i].id, id) {
                return Some(i);
            }
            i = i + 1;
        }
        None
    }

    /// Registers one import edge, as `register_import_spec` describes.
    pub fn register_import(&mut self, imp: &ImportInfo)
        requires
            old(self).wf(),
        ensures
            final(self).wf(),
            final(self)@ == register_import_spec(old(self)@, imp@),
    {
        proof {
            lemma_map_of_contains(self.entries@, imp.id@);
        }
        match self.find_index(&imp.id) {
            Some(i) => {
                let ghost entries0 = self.entries@;
                let ghost e0 = self.entries@[i as int];
                proof {
                    lemma_map_of_get(entries0, i as int);
                }
                let ent = &mut self.entries[i];
                ent.used = true;
                proof {
                    let e1 = entries0[i as int];
                    let e2 = self.entries@[i as int];
                    assert(self.entries@ =~= entries0.update(
                        i as int,
                        self.entries@[i as int],
                    ));
                    lemma_map_of_update(entries0, i as int, self.entries@[i as int]);
                    assert(e2@ == EntityModel { used: true, ..e1@ });
                }
            },
            None => {
                let placeholder = Entity {
                    id: copy_bytes(&imp.id),
                    name: copy_bytes(&imp.name),
                    entity_type: EntityType::Unknown,
                    file_path: copy_bytes(&imp.path),
                    deps: Vec::new(),
                    used: true,
                };
                proof {
                    assert(edges_view(Seq::<ImportInfo>::empty()) =~= Seq::<EdgeModel>::empty());
                    lemma_map_of_push(self.entries@, placeholder);
                }
                self.entries.push(placeholder);
            },
        }
    }

    /// Registers one declaration, as `register_entity_spec` describes.
    pub fn register_entity(&mut self, ent: Entity)
        requires
            old(self).wf(),
        ensures
            final(self).wf(),
            final(self)@ == register_entity_spec(old(self)@, ent@),
    {
        proof {
            lemma_map_of_contains(self.entries@, ent.id@);
        }
        match self.find_index(&ent.id) {
            Some(i) => {
                let ghost entries0 = self.entries@;
                proof {
                    lemma_map_of_get(entries0, i as int);
                }
                let new_ty = ent.entity_type;
                let new_deps = ent.deps;
                let slot = &mut self.entries[i];
                slot.entity_type = new_ty;
                slot.deps = new_deps;
                proof {
                    let e1 = entries0[i as int];
                    let e2 = self.entries@[i as int];
                    assert(self.entries@ =~= entries0.update(
                        i as int,
                        self.entries@[i as int],
                    ));
                    lemma_map_of_update(entries0, i as int, self.entries@[i as int]);
                    assert(e2@ == EntityModel { entity_type: ent@.entity_type, deps: ent@.deps, ..e1@ });
                }
            },
            None => {
                proof {
                    lemma_map_of_push(self.entries@, ent);
                }
                self.entries.push(ent);
            },
        }
    }
}

/// The mathematical value of a list of records.
pub open spec fn entities_view(v: Seq<Entity>) -> Seq<EntityModel> {
    v.map_values(|e: Entity| e@)
}

/// One file's extraction results: the declarations found in it and the
/// import edges its text makes, shared by every declaration of the file.
pub struct FileParseResult {
    pub entities: Vec<Entity>,
    pub imports: Vec<ImportInfo>,
}

/// The mathematical value of one file's extraction results.
pub ghost struct FileParseModel {
    pub entities: Seq<EntityModel>,
    pub imports: Seq<EdgeModel>,
}

impl View for FileParseResult {
    type V = FileParseModel;

    open spec fn view(&self) -> FileParseModel {
        FileParseModel {
            entities: entities_view(self.entities@),
            imports: edges_view(self.imports@),
        }
    }
}

/// The record one declaration denotes: identity from the file and name,
/// the file's import edges as dependencies, and a used flag set when the
/// name occurs more than once as a whole word in the file's raw text.
pub open spec fn entity_for_decl(
    path: Seq<u8>,
    content: Seq<u8>,
    deps: Seq<EdgeModel>,
    d: (Seq<u8>, EntityType),
) -> EntityModel {
    EntityModel {
        id: entity_id(path, d.0),
        name: d.0,
        entity_type: d.1,
        file_path: path,
        deps: deps,
        used: d.0.len() > 0 && count_word(content, d.0) > 1,
    }
}

/// Everything extracted from one file's raw text.
#[verifier::opaque]
pub open spec fn parse_file_spec(
    path: Seq<u8>,
    content: Seq<u8>,
    root: Seq<u8>,
    existing: Seq<Seq<u8>>,
) -> FileParseModel {
    let edges = extract_imports_spec(content, path, root, existing);
    FileParseModel {
        entities: file_decls(strip_spec(content)).map_values(
            |d: (Seq<u8>, EntityType)| entity_for_decl(path, content, edges, d),
        ),
        imports: edges,
    }
}

/// Parses one file's raw text: extracts its import edges and its exported
/// declarations, and marks each declaration used when its name re-occurs
/// in the file.
pub fn parse_typescript_source(
    file_path: &Vec<u8>,
    content: &Vec<u8>,
    root_path: &Vec<u8>,
    existing: &Vec<Vec<u8>>,
) -> (r: FileParseResult)
    ensures
        r@ == parse_file_spec(file_path@, content@, root_path@, paths_view(existing@)),
{
    proof {
        reveal(parse_file_spec);
    }
    let deps = extract_imports(content, file_path, root_path, existing);
    let ghost edges = edges_view(deps@);
    let stripped = strip_comments(content);
    let decl_list = extract_file_decls(&stripped);
    let ghost full = decls_view(decl_list@);
    let ghost target = full.map_values(
        |d: (Seq<u8>, EntityType)| entity_for_decl(file_path@, content@, edges, d),
    );
    let mut out: Vec<Entity> = Vec::new();
    let mut i: usize = 0;
    proof {
        assert(entities_view(out@) =~= target.subrange(0, 0));
    }
    while i < decl_list.len()
        invariant
            i <= decl_list@.len(),
            full == decls_view(decl_list@),
            edges == edges_view(deps@),
            target == full.map_values(
                |d: (Seq<u8>, EntityType)| entity_for_decl(file_path@, content@, edges, d),
            ),
            entities_view(out@) == target.subrange(0, i as int),
        decreases decl_list@.len() - i,
    {
        let ghost pre = entities_view(out@);
        let name = copy_bytes(&decl_list[i].0);
        let ty = decl_list[i].1;
        let used = if name.len() > 0 {
            is_entity_used_locally(content, &name)
        } else {
            false
        };
        let ent = Entity {
            id: generate_entity_id(file_path, &name),
            name,
            entity_type: ty,
            file_path: copy_bytes(file_path),
            deps: clone_edges(&deps),
            used,
        };
        let ghost ev = ent@;
        let ghost out0 = out@;
        out.push(ent);
        i = i + 1;
        proof {
            let iv = i as int;
            assert(pre.len() == out0.len());
            assert(pre == target.subrange(0, iv - 1));
            assert(target.len() == full.len());
            assert(out0.len() == iv - 1);
            assert(out@.len() == iv);
            assert(iv <= target.len());
            assert(ev == target[iv - 1]);
            assert forall|j: int| 0 <= j < iv implies entities_view(out@)[j] == target.subrange(
                0,
                iv,
            )[j] by {
                assert(entities_view(out@)[j] == out@[j]@);
                if j < iv - 1 {
                    assert(out@[j] == out0[j]);
                    assert(pre[j] == entities_view(out0)[j]);
                    assert(entities_view(out0)[j] == out0[j]@);
                    assert(pre[j] == target.subrange(0, iv - 1)[j]);
                } else {
                    assert(out@[j]@ == ev);
                }
            }
            assert(entities_view(out@) =~= target.subrange(0, iv));
        }
    }
    proof {
        assert(target.subrange(0, decl_list@.len() as int) =~= target);
    }
    FileParseResult { entities: out, imports: deps }
}

/// The mapping after registering the edges from index `i` on, first to
/// last.
pub open spec fn register_imports_from(
    m: Map<Seq<u8>, EntityModel>,
    edges: Seq<EdgeModel>,
    i: int,
) -> Map<Seq<u8>, EntityModel>
    decreases edges.len() - i,
{
    if i < 0 || i >= edges.len() {
        m
    } else {
        register_imports_from(register_import_spec(m, edges[i]), edges, i + 1)
    }
}

/// The mapping after registering the declarations from index `i` on.
pub open spec fn register_entities_from(
    m: Map<Seq<u8>, EntityModel>,
    ents: Seq<EntityModel>,
    i: int,
) -> Map<Seq<u8>, EntityModel>
    decreases ents.len() - i,
{
    if i < 0 || i >= ents.len() {
        m
    } else {
        register_entities_from(register_entity_spec(m, ents[i]), ents, i + 1)
    }
}

/// Merging one file: its imports are registered first, then its
/// declarations, so a file's own imports can mark earlier records used
/// before the file's declarations are folded in.
pub open spec fn process_file_spec(m: Map<Seq<u8>, EntityModel>, f: FileParseModel) -> Map<
    Seq<u8>,
    EntityModel,
> {
    register_entities_from(register_imports_from(m, f.imports, 0), f.entities, 0)
}

impl EntityMap {
    /// Merges one file's extraction results, as `process_file_spec`
    /// describes.
    pub fn process_file(&mut self, r: FileParseResult)
        requires
            old(self).wf(),
        ensures
            final(self).wf(),
            final(self)@ == process_file_spec(old(self)@, r@),
    {
        let ghost m0 = self@;
        let ghost iv = edges_view(r.imports@);
        let ghost ev = entities_view(r.entities@);
        let mut i: usize = 0;
        while i < r.imports.len()
            invariant
                i <= r.imports@.len(),
                iv == edges_view(r.imports@),
                self.wf(),
                register_imports_from(m0, iv, 0) == register_imports_from(self@, iv, i as int),
            decreases r.imports@.len() - i,
        {
            self.register_import(&r.imports[i]);
            i = i + 1;
        }
        let ghost m1 = self@;
        proof {
            assert(m1 == register_imports_from(m0, iv, 0));
        }
        let mut j: usize = 0;
        while j < r.entities.len()
            invariant
                j <= r.entities@.len(),
                ev == entities_view(r.entities@),
                self.wf(),
                register_entities_from(m1, ev, 0) == register_entities_from(self@, ev, j as int),
            decreases r.entities@.len() - j,
        {
            let ent = clone_entity(&r.entities[j]);
            self.register_entity(ent);
            j = j + 1;
        }
    }
}

/// The mathematical value of a list of (path, contents) sources.
pub open spec fn sources_view(v: Seq<(Vec<u8>, Vec<u8>)>) -> Seq<(Seq<u8>, Seq<u8>)> {
    v.map_values(|p: (Vec<u8>, Vec<u8>)| (p.0@, p.1@))
}

/// The mapping after scanning the sources from index `i` on, folding each
/// file's results into `m` in order.
pub open spec fn scan_from(
    files: Seq<(Seq<u8>, Seq<u8>)>,
    i: int,
    root: Seq<u8>,
    existing: Seq<Seq<u8>>,
    m: Map<Seq<u8>, EntityModel>,
) -> Map<Seq<u8>, EntityModel>
    decreases files.len() - i,
{
    if i < 0 || i >= files.len() {
        m
    } else {
        scan_from(
            files,
            i + 1,
            root,
            existing,
            process_file_spec(m, parse_file_spec(files[i].0, files[i].1, root, existing)),
        )
    }
}

/// The full pipeline over an enumerated tree: the mapping is rebuilt from
/// scratch, so it is a pure function of the sources, the root, and the set
/// of existing files.
pub open spec fn scan_spec(
    files: Seq<(Seq<u8>, Seq<u8>)>,
    root: Seq<u8>,
    existing: Seq<Seq<u8>>,
) -> Map<Seq<u8>, EntityModel> {
    scan_from(files, 0, root, existing, Map::empty())
}

/// Parses every source and merges the results into one symbol mapping, in
/// enumeration order.
pub fn scan_sources(
    files: &Vec<(Vec<u8>, Vec<u8>)>,
    root_path: &Vec<u8>,
    existing: &Vec<Vec<u8>>,
) -> (m: EntityMap)
    ensures
        m.wf(),
        m@ == scan_spec(sources_view(files@), root_path@, paths_view(existing@)),
{
    let ghost filesv = sources_view(files@);
    let mut m = EntityMap::new();
    let mut i: usize = 0;
    while i < files.len()
        invariant
            i <= files@.len(),
            filesv == sources_view(files@),
            m.wf(),
            scan_spec(filesv, root_path@, paths_view(existing@)) == scan_from(
                filesv,
                i as int,
                root_path@,
                paths_view(existing@),
                m@,
            ),
        decreases files@.len() - i,
    {
        let r = parse_typescript_source(&files[i].0, &files[i].1, root_path, existing);
        m.process_file(r);
        i = i + 1;
    }
    m
}

/// Looks up a symbol record by its identity.
pub fn query_entity_by_id<'a>(entities_map: &'a EntityMap, id: &Vec<u8>) -> (r: Option<&'a Entity>)
    requires
        entities_map.wf(),
    ensures
        match r {
            Some(e) => entities_map@.contains_key(id@) && e@ == entities_map@[id@],
            None => !entities_map@.contains_key(id@),
        },
{
    proof {
        lemma_map_of_contains(entities_map.entries@, id@);
    }
    match entities_map.find_index(id) {
        Some(i) => {
            proof {
                lemma_map_of_get(entities_map.entries@, i as int);
            }
            Some(&entities_map.entries[i])
        },
        None => None,
    }
}

/// Byte-wise lexicographic order, the order path and identity strings are
/// reported in.
pub open spec fn lex_le(a: Seq<u8>, b: Seq<u8>) -> bool
    decreases a.len(),
{
    if a.len() == 0 {
        true
    } else if b.len() == 0 {
        false
    } else if a[0] < b[0] {
        true
    } else if a[0] > b[0] {
        false
    } else {
        lex_le(a.drop_first(), b.drop_first())
    }
}

/// Lexicographic order is total.
pub proof fn lemma_lex_total(a: Seq<u8>, b: Seq<u8>)
    ensures
        lex_le(a, b) || lex_le(b, a),
    decreases a.len(),
{
    if a.len() > 0 && b.len() > 0 && a[0] == b[0] {
        lemma_lex_total(a.drop_first(), b.drop_first());
    }
}

/// Lexicographic order is transitive.
pub proof fn lemma_lex_trans(a: Seq<u8>, b: Seq<u8>, c: Seq<u8>)
    requires
        lex_le(a, b),
        lex_le(b, c),
    ensures
        lex_le(a, c),
    decreases a.len(),
{
    if a.len() > 0 && b.len() > 0 && c.len() > 0 && a[0] == b[0] && b[0] == c[0] {
        lemma_lex_trans(a.drop_first(), b.drop_first(), c.drop_first());
    }
}

/// Compares two byte strings lexicographically.
pub fn lex_le_bytes(a: &Vec<u8>, b: &Vec<u8>) -> (r: bool)
    ensures
        r == lex_le(a@, b@),
{
    let mut i: usize = 0;
    proof {
        assert(a@.skip(0) =~= a@);
        assert(b@.skip(0) =~= b@);
    }
    while i < a.len() && i < b.len() && a[i] == b[i]
        invariant
            i <= a@.len(),
            i <= b@.len(),
            lex_le(a@, b@) == lex_le(a@.skip(i as int), b@.skip(i as int)),
            lex_le(b@, a@) == lex_le(b@.skip(i as int), a@.skip(i as int)),
        decreases a@.len() - i,
    {
        proof {
            let sa = a@.skip(i as int);
            let sb = b@.skip(i as int);
            assert(sa[0] == a@[i as int] && sb[0] == b@[i as int]);
            assert(sa.drop_first() =~= a@.skip(i as int + 1));
            assert(sb.drop_first() =~= b@.skip(i as int + 1));
        }
        i = i + 1;
    }
    proof {
        assert(a@.skip(i as int).len() == a@.len() - i);
        assert(b@.skip(i as int).len() == b@.len() - i);
    }
    if i == a.len() {
        true
    } else if i == b.len() {
        false
    } else {
        proof {
            let sa = a@.skip(i as int);
            let sb = b@.skip(i as int);
            assert(sa[0] == a@[i as int] && sb[0] == b@[i as int]);
        }
        a[i] < b[i]
    }
}

/// The sort key for a report: the identity for the full listing, the
/// defining file for the unused listing.
pub open spec fn report_key(m: EntityModel, by_id: bool) -> Seq<u8> {
    if by_id {
        m.id
    } else {
        m.file_path
    }
}

/// The list is ordered by the chosen key.
pub open spec fn sorted_by_key(v: Seq<EntityModel>, by_id: bool) -> bool {
    forall|i: int, j: int|
        0 <= i < j < v.len() ==> lex_le(report_key(v[i], by_id), report_key(v[j], by_id))
}

/// Inserts a record into a key-ordered list, keeping the order.
fn insert_sorted(out: &mut Vec<Entity>, e: Entity, by_id: bool) -> (pos: usize)
    requires
        sorted_by_key(entities_view(old(out)@), by_id),
    ensures
        sorted_by_key(entities_view(final(out)@), by_id),
        final(out)@.len() == old(out)@.len() + 1,
        pos <= old(out)@.len(),
        final(out)@ == old(out)@.insert(pos as int, e),
{
    let ghost old_view = out@;
    let key_new = if by_id {
        copy_bytes(&e.id)
    } else {
        copy_bytes(&e.file_path)
    };
    let mut k: usize = 0;
    let mut stop = false;
    while k < out.len() && !stop
        invariant
            k <= out@.len(),
            out@ == old_view,
            key_new@ == report_key(e@, by_id),
            forall|j: int|
                0 <= j < k ==> lex_le(report_key(out@[j]@, by_id), report_key(e@, by_id)),
            stop ==> k < out@.len() && !lex_le(report_key(out@[k as int]@, by_id), report_key(e@, by_id)),
        decreases out@.len() - k + (if stop { 0int } else { 1int }),
    {
        let cand = if by_id {
            &out[k].id
        } else {
            &out[k].file_path
        };
        if lex_le_bytes(cand, &key_new) {
            k = k + 1;
        } else {
            stop = true;
        }
    }
    let ghost kpos = k as int;
    proof {
        if kpos < out@.len() {
            assert(stop);
            lemma_lex_total(report_key(out@[kpos]@, by_id), report_key(e@, by_id));
            assert(lex_le(report_key(e@, by_id), report_key(out@[kpos]@, by_id)));
        }
    }
    out.insert(k, e);
    proof {
        assert(out@ == old_view.insert(kpos, e));
        let nv = entities_view(out@);
        let ov = entities_view(old_view);
        assert forall|i: int, j: int| 0 <= i < j < nv.len() implies lex_le(
            report_key(nv[i], by_id),
            report_key(nv[j], by_id),
        ) by {
            let mi = if i < kpos {
                ov[i]
            } else if i == kpos {
                e@
            } else {
                ov[i - 1]
            };
            let mj = if j < kpos {
                ov[j]
            } else if j == kpos {
                e@
            } else {
                ov[j - 1]
            };
            assert(nv[i] == mi && nv[j] == mj);
            if i < kpos && j == kpos {
            } else if i == kpos && j > kpos {
                assert(ov[kpos] == old_view[kpos]@);
                if j - 1 > kpos {
                    lemma_lex_trans(
                        report_key(e@, by_id),
                        report_key(ov[kpos], by_id),
                        report_key(ov[j - 1], by_id),
                    );
                }
            } else if i < kpos && j > kpos {
            } else {
            }
        }
    }
    k
}

/// The unused symbols: every record that is not a placeholder and was
/// never marked used, ordered by defining file.  Identities never repeat
/// in the result, and each returned record equals its record in the
/// mapping.
pub fn unused_entities(entities_map: &EntityMap) -> (r: Vec<Entity>)
    requires
        entities_map.wf(),
    ensures
        sorted_by_key(entities_view(r@), false),
        forall|j: int|
            0 <= j < r@.len() ==> entities_map@.contains_key(r@[j]@.id) && entities_map@[r@[j]@.id]
                == r@[j]@ && !r@[j]@.used && r@[j]@.entity_type != EntityType::Unknown,
        forall|k: Seq<u8>|
            entities_map@.contains_key(k) && !entities_map@[k].used && entities_map@[k].entity_type
                != EntityType::Unknown ==> exists|j: int| 0 <= j < r@.len() && r@[j]@.id == k,
        forall|i: int, j: int| 0 <= i < j < r@.len() ==> r@[i]@.id != r@[j]@.id,
{
    collect_report(entities_map, false, true)
}

/// Every symbol in the mapping, ordered by identity.  Each returned
/// record equals its record in the mapping, and every identity appears.
pub fn all_entities_sorted(entities_map: &EntityMap) -> (r: Vec<Entity>)
    requires
        entities_map.wf(),
    ensures
        sorted_by_key(entities_view(r@), true),
        forall|j: int|
            0 <= j < r@.len() ==> entities_map@.contains_key(r@[j]@.id) && entities_map@[r@[j]@.id]
                == r@[j]@,
        forall|k: Seq<u8>|
            entities_map@.contains_key(k) ==> exists|j: int| 0 <= j < r@.len() && r@[j]@.id == k,
        forall|i: int, j: int| 0 <= i < j < r@.len() ==> r@[i]@.id != r@[j]@.id,
{
    collect_report(entities_map, true, false)
}

/// Whether a record belongs in the report: everything for the full
/// listing, only confirmed-dead exports for the unused listing.
pub open spec fn report_keeps(m: EntityModel, only_unused: bool) -> bool {
    !only_unused || (!m.used && m.entity_type != EntityType::Unknown)
}

/// After an insertion, every element of the report still equals its
/// record in the mapping and still belongs there.
#[verifier::spinoff_prover]
proof fn lemma_insert_faithful(
    entries: Seq<Entity>,
    pre: Seq<Entity>,
    cur: Seq<Entity>,
    e: Entity,
    k: int,
    i: int,
    only_unused: bool,
)
    requires
        ids_distinct(entries),
        0 <= i < entries.len(),
        0 <= k <= pre.len(),
        cur == pre.insert(k, e),
        e@ == entries[i]@,
        report_keeps(e@, only_unused),
        forall|j: int|
            0 <= j < pre.len() ==> map_of(entries).contains_key(pre[j]@.id) && map_of(entries)[
                pre[j]@.id
            ] == pre[j]@ && report_keeps(pre[j]@, only_unused),
    ensures
        forall|j: int|
            0 <= j < cur.len() ==> map_of(entries).contains_key(cur[j]@.id) && map_of(entries)[
                cur[j]@.id
            ] == cur[j]@ && report_keeps(cur[j]@, only_unused),
{
    lemma_map_of_get(entries, i);
    assert forall|j: int| 0 <= j < cur.len() implies map_of(entries).contains_key(cur[j]@.id)
        && map_of(entries)[cur[j]@.id] == cur[j]@ && report_keeps(cur[j]@, only_unused) by {
        if j < k {
            assert(cur[j] == pre[j]);
        } else if j == k {
            assert(cur[j] == e);
        } else {
            assert(cur[j] == pre[j - 1]);
        }
    }
}

/// After an insertion, every processed record that belongs in the report
/// is represented.
#[verifier::spinoff_prover]
proof fn lemma_insert_complete(
    entries: Seq<Entity>,
    pre: Seq<Entity>,
    cur: Seq<Entity>,
    e: Entity,
    k: int,
    i: int,
    only_unused: bool,
)
    requires
        0 <= i < entries.len(),
        0 <= k <= pre.len(),
        cur == pre.insert(k, e),
        e.id@ == entries[i].id@,
        forall|l: int|
            0 <= l < i && report_keeps(entries[l]@, only_unused) ==> exists|j: int|
                0 <= j < pre.len() && pre[j]@.id == entries[l].id@,
    ensures
        forall|l: int|
            0 <= l < i + 1 && report_keeps(entries[l]@, only_unused) ==> exists|j: int|
                0 <= j < cur.len() && cur[j]@.id == entries[l].id@,
{
    assert forall|l: int|
        0 <= l < i + 1 && report_keeps(entries[l]@, only_unused) implies exists|j: int|
        0 <= j < cur.len() && cur[j]@.id == entries[l].id@ by {
        if l < i {
            let j = choose|j: int| 0 <= j < pre.len() && pre[j]@.id == entries[l].id@;
            if j < k {
                assert(cur[j] == pre[j]);
            } else {
                assert(cur[j + 1] == pre[j]);
            }
        } else {
            assert(cur[k] == e);
        }
    }
}

/// Entry-level completeness of a report carries over to the mapping: every
/// mapped record that belongs in the report is represented.
#[verifier::spinoff_prover]
proof fn lemma_entry_complete_to_map(entries: Seq<Entity>, out: Seq<Entity>, only_unused: bool)
    requires
        ids_distinct(entries),
        forall|l: int|
            0 <= l < entries.len() && report_keeps(entries[l]@, only_unused) ==> exists|j: int|
                0 <= j < out.len() && out[j]@.id == entries[l].id@,
    ensures
        forall|k: Seq<u8>|
            map_of(entries).contains_key(k) && report_keeps(map_of(entries)[k], only_unused)
                ==> exists|j: int| 0 <= j < out.len() && out[j]@.id == k,
{
    assert forall|k: Seq<u8>|
        map_of(entries).contains_key(k) && report_keeps(
            map_of(entries)[k],
            only_unused,
        ) implies exists|j: int| 0 <= j < out.len() && out[j]@.id == k by {
        lemma_map_of_contains(entries, k);
        let l = choose|l: int| 0 <= l < entries.len() && entries[l].id@ == k;
        lemma_map_of_get(entries, l);
    }
}
/// Whether some element of the report already carries this identity.
fn report_has_id(out: &Vec<Entity>, id: &Vec<u8>) -> (r: bool)
    ensures
        r == exists|j: int| 0 <= j < out@.len() && out@[j]@.id == id@,
{
    let mut j: usize = 0;
    while j < out.len()
        invariant
            j <= out@.len(),
            forall|l: int| 0 <= l < j ==> out@[l]@.id != id@,
        decreases out@.len() - j,
    {
        if bytes_eq(&out[j].id, id) {
            proof {
                assert(out@[j as int]@.id == id@);
            }
            return true;
        }
        j = j + 1;
    }
    false
}

/// Inserting a record whose identity is fresh keeps identities pairwise
/// distinct.
#[verifier::spinoff_prover]
proof fn lemma_insert_distinct(pre: Seq<Entity>, cur: Seq<Entity>, e: Entity, k: int)
    requires
        0 <= k <= pre.len(),
        cur == pre.insert(k, e),
        forall|j: int| 0 <= j < pre.len() ==> pre[j]@.id != e@.id,
        forall|i1: int, j1: int| 0 <= i1 < j1 < pre.len() ==> pre[i1]@.id != pre[j1]@.id,
    ensures
        forall|i1: int, j1: int| 0 <= i1 < j1 < cur.len() ==> cur[i1]@.id != cur[j1]@.id,
{
    assert forall|i1: int, j1: int| 0 <= i1 < j1 < cur.len() implies cur[i1]@.id != cur[j1]@.id by {
        let mi = if i1 < k {
            pre[i1]
        } else if i1 == k {
            e
        } else {
            pre[i1 - 1]
        };
        let mj = if j1 < k {
            pre[j1]
        } else if j1 == k {
            e
        } else {
            pre[j1 - 1]
        };
        assert(cur[i1] == mi && cur[j1] == mj);
    }
}


#[verifier::rlimit(30)]
#[verifier::spinoff_prover]
fn report_step(
    entities_map: &EntityMap,
    out: &mut Vec<Entity>,
    i: usize,
    by_id: bool,
    only_unused: bool,
)
    requires
        entities_map.wf(),
        i < entities_map.entries@.len(),
        sorted_by_key(entities_view(old(out)@), by_id),
        forall|j: int|
            0 <= j < old(out)@.len() ==> map_of(entities_map.entries@).contains_key(
                old(out)@[j]@.id,
            ) && map_of(entities_map.entries@)[old(out)@[j]@.id] == old(out)@[j]@ && report_keeps(
                old(out)@[j]@,
                only_unused,
            ),
        forall|l: int|
            0 <= l < i && report_keeps(entities_map.entries@[l]@, only_unused) ==> exists|j: int|
                0 <= j < old(out)@.len() && old(out)@[j]@.id == entities_map.entries@[l].id@,
        forall|i1: int, j1: int|
            0 <= i1 < j1 < old(out)@.len() ==> old(out)@[i1]@.id != old(out)@[j1]@.id,
    ensures
        sorted_by_key(entities_view(final(out)@), by_id),
        forall|j: int|
            0 <= j < final(out)@.len() ==> map_of(entities_map.entries@).contains_key(
                final(out)@[j]@.id,
            ) && map_of(entities_map.entries@)[final(out)@[j]@.id] == final(out)@[j]@
                && report_keeps(final(out)@[j]@, only_unused),
        forall|l: int|
            0 <= l < i + 1 && report_keeps(entities_map.entries@[l]@, only_unused) ==> exists|
                j: int,
            |
                0 <= j < final(out)@.len() && final(out)@[j]@.id == entities_map.entries@[l].id@,
        forall|i1: int, j1: int|
            0 <= i1 < j1 < final(out)@.len() ==> final(out)@[i1]@.id != final(out)@[j1]@.id,
{
    let ghost pre = out@;
    let ent = &entities_map.entries[i];
    let keep = if only_unused {
        !ent.used && !matches!(ent.entity_type, EntityType::Unknown)
    } else {
        true
    };
    proof {
        lemma_map_of_get(entities_map.entries@, i as int);
    }
    if keep && !report_has_id(out, &ent.id) {
        let e = clone_entity(ent);
        let ghost ev = e;
        let pos = insert_sorted(out, e, by_id);
        proof {
            let k = pos as int;
            let entries = entities_map.entries@;
            lemma_insert_faithful(entries, pre, out@, ev, k, i as int, only_unused);
            lemma_insert_complete(entries, pre, out@, ev, k, i as int, only_unused);
            lemma_insert_distinct(pre, out@, ev, k);
        }
    } else {
        proof {
            if keep {
                assert(exists|j: int|
                    0 <= j < out@.len() && out@[j]@.id == entities_map.entries@[i as int].id@);
            } else {
                assert(!report_keeps(entities_map.entries@[i as int]@, only_unused));
            }
        }
    }
}

#[verifier::rlimit(30)]
#[verifier::spinoff_prover]
fn collect_report(entities_map: &EntityMap, by_id: bool, only_unused: bool) -> (r: Vec<Entity>)
    requires
        entities_map.wf(),
    ensures
        sorted_by_key(entities_view(r@), by_id),
        forall|j: int|
            0 <= j < r@.len() ==> entities_map@.contains_key(r@[j]@.id) && entities_map@[r@[j]@.id]
                == r@[j]@ && report_keeps(r@[j]@, only_unused),
        forall|k: Seq<u8>|
            entities_map@.contains_key(k) && report_keeps(entities_map@[k], only_unused)
                ==> exists|j: int| 0 <= j < r@.len() && r@[j]@.id == k,
        forall|i: int, j: int| 0 <= i < j < r@.len() ==> r@[i]@.id != r@[j]@.id,
{
    let n = entities_map.entries.len();
    let mut out: Vec<Entity> = Vec::new();
    let mut i: usize = 0;
    while i < n
        invariant
            i <= n,
            n == entities_map.entries@.len(),
            entities_map.wf(),
            sorted_by_key(entities_view(out@), by_id),
            forall|j: int|
                0 <= j < out@.len() ==> map_of(entities_map.entries@).contains_key(out@[j]@.id)
                    && map_of(entities_map.entries@)[out@[j]@.id] == out@[j]@ && report_keeps(
                    out@[j]@,
                    only_unused,
                ),
            forall|l: int|
                0 <= l < i && report_keeps(entities_map.entries@[l]@, only_unused) ==> exists|
                    j: int,
                |
                    0 <= j < out@.len() && out@[j]@.id == entities_map.entries@[l].id@,
            forall|i1: int, j1: int| 0 <= i1 < j1 < out@.len() ==> out@[i1]@.id != out@[j1]@.id,
        decreases n - i,
    {
        report_step(entities_map, &mut out, i, by_id, only_unused);
        i = i + 1;
    }
    proof {
        lemma_entry_complete_to_map(entities_map.entries@, out@, only_unused);
    }
    out
}

/// Once a record's used flag is set, registering further imports never
/// clears it.
pub proof fn lemma_imports_keep_used(
    m: Map<Seq<u8>, EntityModel>,
    edges: Seq<EdgeModel>,
    i: int,
    k: Seq<u8>,
)
    requires
        m.contains_key(k),
        m[k].used,
    ensures
        register_imports_from(m, edges, i).contains_key(k),
        register_imports_from(m, edges, i)[k].used,
    decreases edges.len() - i,
{
    if 0 <= i < edges.len() {
        lemma_imports_keep_used(register_import_spec(m, edges[i]), edges, i + 1, k);
    }
}

/// Once a record's used flag is set, registering further declarations
/// never clears it.
pub proof fn lemma_entities_keep_used(
    m: Map<Seq<u8>, EntityModel>,
    ents: Seq<EntityModel>,
    i: int,
    k: Seq<u8>,
)
    requires
        m.contains_key(k),
        m[k].used,
    ensures
        register_entities_from(m, ents, i).contains_key(k),
        register_entities_from(m, ents, i)[k].used,
    decreases ents.len() - i,
{
    if 0 <= i < ents.len() {
        lemma_entities_keep_used(register_entity_spec(m, ents[i]), ents, i + 1, k);
    }
}

/// The used flag is monotonic: once any step of the merge has set it, no
/// later file's imports or declarations reset it.
pub proof fn lemma_usage_monotonic(
    files: Seq<(Seq<u8>, Seq<u8>)>,
    i: int,
    root: Seq<u8>,
    existing: Seq<Seq<u8>>,
    m: Map<Seq<u8>, EntityModel>,
    k: Seq<u8>,
)
    requires
        m.contains_key(k),
        m[k].used,
    ensures
        scan_from(files, i, root, existing, m).contains_key(k),
        scan_from(files, i, root, existing, m)[k].used,
    decreases files.len() - i,
{
    if 0 <= i < files.len() {
        let f = parse_file_spec(files[i].0, files[i].1, root, existing);
        lemma_imports_keep_used(m, f.imports, 0, k);
        lemma_entities_keep_used(register_imports_from(m, f.imports, 0), f.entities, 0, k);
        lemma_usage_monotonic(files, i + 1, root, existing, process_file_spec(m, f), k);
    }
}

/// Placeholder promotion: an import seen before its target file creates an
/// Unknown record marked used; when the declaration arrives, the record
/// takes the declared kind and dependencies while the used flag survives.
pub proof fn lemma_placeholder_promotion(
    m: Map<Seq<u8>, EntityModel>,
    e: EdgeModel,
    d: EntityModel,
)
    requires
        !m.contains_key(e.id),
        d.id == e.id,
    ensures
        ({
            let promoted = register_entity_spec(register_import_spec(m, e), d);
            promoted.contains_key(d.id) && promoted[d.id].entity_type == d.entity_type
                && promoted[d.id].deps == d.deps && promoted[d.id].used
        }),
{
}

/// The pipeline is deterministic: the final mapping is a pure function of
/// the scanned sources, the tree root and the set of existing files, so
/// scanning an unchanged tree twice yields the identical mapping.
pub proof fn lemma_scan_deterministic(
    files1: Seq<(Seq<u8>, Seq<u8>)>,
    files2: Seq<(Seq<u8>, Seq<u8>)>,
    root: Seq<u8>,
    existing: Seq<Seq<u8>>,
)
    requires
        files1 == files2,
    ensures
        scan_spec(files1, root, existing) == scan_spec(files2, root, existing),
{
}

/// The mapping's domain has one key per record.
proof fn lemma_map_of_len(entries: Seq<Entity>)
    requires
        ids_distinct(entries),
    ensures
        map_of(entries).dom().len() == entries.len(),
        map_of(entries).dom().finite(),
    decreases entries.len(),
{
    if entries.len() == 0 {
    } else {
        assert(ids_distinct(entries.drop_last()));
        lemma_map_of_len(entries.drop_last());
        lemma_map_of_contains(entries.drop_last(), entries.last().id@);
        assert(forall|j: int|
            0 <= j < entries.drop_last().len() ==> entries.drop_last()[j].id@
                != entries.last().id@);
        assert(!map_of(entries.drop_last()).contains_key(entries.last().id@));
    }
}

} // verus!
