use crate::schema::{ObjectType, ObjectTypeView, Schema, SchemaView};
use crate::value::Type;
use vstd::prelude::*;

verus! {

/// The object type `CargoManifest`.
pub open spec fn cargo_manifest_view() -> ObjectTypeView {
    ObjectTypeView::named("CargoManifest"@)
        .with_field(0, "package"@, Type::Object(87839159), false)
        .with_field(1, "dependencies"@, Type::Object(7218972), true)
        .with_field(2, "dev-dependencies"@, Type::Object(7218972), true)
        .with_field(3, "build-dependencies"@, Type::Object(7218972), true)
        .with_field(4, "features"@, Type::Object(893728943), true)
        .with_field(5, "target"@, Type::Object(893728943), true)
        .with_field(6, "workspace"@, Type::Object(893728943), false)
        .with_field(7, "profile"@, Type::Object(893728943), true)
        .with_field(8, "patch"@, Type::Object(893728943), true)
        .with_field(9, "replace"@, Type::Object(893728943), true)
        .with_field(10, "workspace-members"@, Type::Object(893728943), true)
        .with_field(11, "default-members"@, Type::Object(893728943), true)
        .with_field(12, "exclude"@, Type::Object(893728943), true)
        .with_field(13, "include"@, Type::Object(893728943), true)
        .with_field(14, "metadata"@, Type::Object(893728943), false)
}

fn cargo_manifest() -> (object_type: ObjectType)
    ensures
        object_type@ == cargo_manifest_view(),
{
    ObjectType::named("CargoManifest")
        .with_field(0, "package", Type::Object(87839159), false)
        .with_field(1, "dependencies", Type::Object(7218972), true)
        .with_field(2, "dev-dependencies", Type::Object(7218972), true)
        .with_field(3, "build-dependencies", Type::Object(7218972), true)
        .with_field(4, "features", Type::Object(893728943), true)
        .with_field(5, "target", Type::Object(893728943), true)
        .with_field(6, "workspace", Type::Object(893728943), false)
        .with_field(7, "profile", Type::Object(893728943), true)
        .with_field(8, "patch", Type::Object(893728943), true)
        .with_field(9, "replace", Type::Object(893728943), true)
        .with_field(10, "workspace-members", Type::Object(893728943), true)
        .with_field(11, "default-members", Type::Object(893728943), true)
        .with_field(12, "exclude", Type::Object(893728943), true)
        .with_field(13, "include", Type::Object(893728943), true)
        .with_field(14, "metadata", Type::Object(893728943), false)
}

/// The object type `Package`.
pub open spec fn package_view() -> ObjectTypeView {
    ObjectTypeView::named("Package"@)
        .with_field(0, "name"@, Type::String, false)
        .with_field(1, "version"@, Type::String, false)
        .with_field(2, "authors"@, Type::String, true)
        .with_field(3, "edition"@, Type::String, false)
        .with_field(4, "build"@, Type::String, false)
        .with_field(5, "links"@, Type::String, false)
        .with_field(6, "exclude"@, Type::String, true)
        .with_field(7, "include"@, Type::String, true)
        .with_field(8, "publish"@, Type::String, false)
        .with_field(9, "workspace"@, Type::String, false)
        .with_field(10, "edition"@, Type::String, false)
        .with_field(11, "metadata"@, Type::String, false)
}

fn package() -> (object_type: ObjectType)
    ensures
        object_type@ == package_view(),
{
    ObjectType::named("Package")
        .with_field(0, "name", Type::String, false)
        .with_field(1, "version", Type::String, false)
        .with_field(2, "authors", Type::String, true)
        .with_field(3, "edition", Type::String, false)
        .with_field(4, "build", Type::String, false)
        .with_field(5, "links", Type::String, false)
        .with_field(6, "exclude", Type::String, true)
        .with_field(7, "include", Type::String, true)
        .with_field(8, "publish", Type::String, false)
        .with_field(9, "workspace", Type::String, false)
        .with_field(10, "edition", Type::String, false)
        .with_field(11, "metadata", Type::String, false)
}

/// The object type `Dependency`.
pub open spec fn dependency_view() -> ObjectTypeView {
    ObjectTypeView::named("Dependency"@)
        .with_field(12093, "name"@, Type::String, false)
        .with_field(912831, "version"@, Type::String, false)
        .with_field(12987123, "registry"@, Type::String, false)
        .with_field(2098713, "git"@, Type::String, false)
        .with_field(912783, "branch"@, Type::String, false)
        .with_field(341231, "tag"@, Type::String, false)
        .with_field(123901, "rev"@, Type::String, false)
        .with_field(198293, "path"@, Type::String, false)
}

fn dependency() -> (object_type: ObjectType)
    ensures
        object_type@ == dependency_view(),
{
    ObjectType::named("Dependency")
        .with_field(12093, "name", Type::String, false)
        .with_field(912831, "version", Type::String, false)
        .with_field(12987123, "registry", Type::String, false)
        .with_field(2098713, "git", Type::String, false)
        .with_field(912783, "branch", Type::String, false)
        .with_field(341231, "tag", Type::String, false)
        .with_field(123901, "rev", Type::String, false)
        .with_field(198293, "path", Type::String, false)
}

/// The object type `Dockerfile`.
pub open spec fn dockerfile_view() -> ObjectTypeView {
    ObjectTypeView::named("Dockerfile"@)
        .with_field(2871232, "commands"@, Type::Object(28973111), true)
}

fn dockerfile() -> (object_type: ObjectType)
    ensures
        object_type@ == dockerfile_view(),
{
    ObjectType::named("Dockerfile")
        .with_field(2871232, "commands", Type::Object(28973111), true)
}

/// The object type `Dockerfile Command`.
pub open spec fn dockerfile_command_view() -> ObjectTypeView {
    ObjectTypeView::named("Dockerfile Command"@)
        .with_field(128371, "from"@, Type::Object(29187312), false)
        .with_field(89723, "run"@, Type::Object(273819273), true)
        .with_field(1987312, "cmd"@, Type::String, true)
        .with_field(129837, "label"@, Type::String, true)
        .with_field(129837, "expose"@, Type::String, true)
        .with_field(129837, "env"@, Type::String, true)
        .with_field(1927131, "add"@, Type::String, true)
        .with_field(23812319, "copy"@, Type::String, true)
        .with_field(6412128, "entrypoint"@, Type::String, true)
        .with_field(21897312, "volume"@, Type::String, true)
        .with_field(1298371, "user"@, Type::String, false)
        .with_field(119283, "workdir"@, Type::String, false)
        .with_field(1122811, "arg"@, Type::String, true)
        .with_field(11929911, "onbuild"@, Type::String, true)
        .with_field(9989231, "stopsignal"@, Type::String, false)
        .with_field(1287311, "healthcheck"@, Type::String, false)
        .with_field(199198, "shell"@, Type::String, true)
}

fn dockerfile_command() -> (object_type: ObjectType)
    ensures
        object_type@ == dockerfile_command_view(),
{
    ObjectType::named("Dockerfile Command")
        .with_field(128371, "from", Type::Object(29187312), false)
        .with_field(89723, "run", Type::Object(273819273), true)
        .with_field(1987312, "cmd", Type::String, true)
        .with_field(129837, "label", Type::String, true)
        .with_field(129837, "expose", Type::String, true)
        .with_field(129837, "env", Type::String, true)
        .with_field(1927131, "add", Type::String, true)
        .with_field(23812319, "copy", Type::String, true)
        .with_field(6412128, "entrypoint", Type::String, true)
        .with_field(21897312, "volume", Type::String, true)
        .with_field(1298371, "user", Type::String, false)
        .with_field(119283, "workdir", Type::String, false)
        .with_field(1122811, "arg", Type::String, true)
        .with_field(11929911, "onbuild", Type::String, true)
        .with_field(9989231, "stopsignal", Type::String, false)
        .with_field(1287311, "healthcheck", Type::String, false)
        .with_field(199198, "shell", Type::String, true)
}

/// The object type `Dockerfile FROM`.
pub open spec fn dockerfile_from_view() -> ObjectTypeView {
    ObjectTypeView::named("Dockerfile FROM"@)
        .with_field(281731, "image"@, Type::String, false)
        .with_field(976981231, "tag"@, Type::String, false)
        .with_field(8912731, "digest"@, Type::String, false)
        .with_field(8197129, "as"@, Type::String, false)
}

fn dockerfile_from() -> (object_type: ObjectType)
    ensures
        object_type@ == dockerfile_from_view(),
{
    ObjectType::named("Dockerfile FROM")
        .with_field(281731, "image", Type::String, false)
        .with_field(976981231, "tag", Type::String, false)
        .with_field(8912731, "digest", Type::String, false)
        .with_field(8197129, "as", Type::String, false)
}

/// The object type `Dockerfile RUN`.
pub open spec fn dockerfile_run_view() -> ObjectTypeView {
    ObjectTypeView::named("Dockerfile RUN"@)
        .with_field(1279811, "command"@, Type::String, true)
        .with_field(9002137, "network"@, Type::Object(87123897), false)
}

fn dockerfile_run() -> (object_type: ObjectType)
    ensures
        object_type@ == dockerfile_run_view(),
{
    ObjectType::named("Dockerfile RUN")
        .with_field(1279811, "command", Type::String, true)
        .with_field(9002137, "network", Type::Object(87123897), false)
}

/// The object type `Dockerfile RUN network`.
pub open spec fn dockerfile_run_network_view() -> ObjectTypeView {
    ObjectTypeView::named("Dockerfile RUN network"@)
        .with_field(29187312, "default"@, Type::String, false)
        .with_field(98123981, "none"@, Type::String, false)
        .with_field(9128232, "host"@, Type::String, false)
}

fn dockerfile_run_network() -> (object_type: ObjectType)
    ensures
        object_type@ == dockerfile_run_network_view(),
{
    ObjectType::named("Dockerfile RUN network")
        .with_field(29187312, "default", Type::String, false)
        .with_field(98123981, "none", Type::String, false)
        .with_field(9128232, "host", Type::String, false)
}

/// The object type `User`.
pub open spec fn user_view() -> ObjectTypeView {
    ObjectTypeView::named("User"@)
        .with_field(0, "name"@, Type::String, false)
        .with_field(1, "age"@, Type::Int, false)
        .with_field(2, "is_admin"@, Type::Boolean, false)
        .with_field(3, "friends"@, Type::String, true)
}

fn user() -> (object_type: ObjectType)
    ensures
        object_type@ == user_view(),
{
    ObjectType::named("User")
        .with_field(0, "name", Type::String, false)
        .with_field(1, "age", Type::Int, false)
        .with_field(2, "is_admin", Type::Boolean, false)
        .with_field(3, "friends", Type::String, true)
}

/// The object type `FlatArticle`.
pub open spec fn flat_article_view() -> ObjectTypeView {
    ObjectTypeView::named("FlatArticle"@)
        .with_field(37438, "blocks"@, Type::Object(28398), true)
}

fn flat_article() -> (object_type: ObjectType)
    ensures
        object_type@ == flat_article_view(),
{
    ObjectType::named("FlatArticle")
        .with_field(37438, "blocks", Type::Object(28398), true)
}

/// The object type `FlatArticleBlock`.
pub open spec fn flat_article_block_view() -> ObjectTypeView {
    ObjectTypeView::named("FlatArticleBlock"@)
        .with_field(29382, "h1"@, Type::String, false)
        .with_field(129382, "h2"@, Type::String, false)
        .with_field(93483, "h3"@, Type::String, false)
        .with_field(238239, "paragrah"@, Type::String, false)
        .with_field(9834734, "quote"@, Type::String, false)
        .with_field(389734, "code"@, Type::String, false)
        .with_field(834734, "ordered list"@, Type::String, true)
        .with_field(756347, "unordered list"@, Type::String, true)
}

fn flat_article_block() -> (object_type: ObjectType)
    ensures
        object_type@ == flat_article_block_view(),
{
    ObjectType::named("FlatArticleBlock")
        .with_field(29382, "h1", Type::String, false)
        .with_field(129382, "h2", Type::String, false)
        .with_field(93483, "h3", Type::String, false)
        .with_field(238239, "paragrah", Type::String, false)
        .with_field(9834734, "quote", Type::String, false)
        .with_field(389734, "code", Type::String, false)
        .with_field(834734, "ordered list", Type::String, true)
        .with_field(756347, "unordered list", Type::String, true)
}

/// The object type `TreeArticle`.
pub open spec fn tree_article_view() -> ObjectTypeView {
    ObjectTypeView::named("TreeArticle"@)
        .with_field(34837, "sections"@, Type::Object(8734289), false)
}

fn tree_article() -> (object_type: ObjectType)
    ensures
        object_type@ == tree_article_view(),
{
    ObjectType::named("TreeArticle")
        .with_field(34837, "sections", Type::Object(8734289), false)
}

/// The object type `TreeArticleSection`.
pub open spec fn tree_article_section_view() -> ObjectTypeView {
    ObjectTypeView::named("TreeArticleSection"@)
        .with_field(21837, "title"@, Type::String, false)
        .with_field(298734, "blocks"@, Type::Object(93847373), true)
}

fn tree_article_section() -> (object_type: ObjectType)
    ensures
        object_type@ == tree_article_section_view(),
{
    ObjectType::named("TreeArticleSection")
        .with_field(21837, "title", Type::String, false)
        .with_field(298734, "blocks", Type::Object(93847373), true)
}

/// The object type `TreeArticleBlock`.
pub open spec fn tree_article_block_view() -> ObjectTypeView {
    ObjectTypeView::named("TreeArticleBlock"@)
        .with_field(387439, "text"@, Type::String, false)
        .with_field(38743, "quote"@, Type::String, false)
        .with_field(39843, "code"@, Type::String, false)
}

fn tree_article_block() -> (object_type: ObjectType)
    ensures
        object_type@ == tree_article_block_view(),
{
    ObjectType::named("TreeArticleBlock")
        .with_field(387439, "text", Type::String, false)
        .with_field(38743, "quote", Type::String, false)
        .with_field(39843, "code", Type::String, false)
}

/// The object type `Post`.
pub open spec fn post_view() -> ObjectTypeView {
    ObjectTypeView::named("Post"@)
        .with_field(0, "title"@, Type::String, false)
        .with_field(1, "content"@, Type::String, false)
        .with_field(2, "author"@, Type::Object(27092), true)
        .with_field(3, "comments"@, Type::Object(5528), true)
        .with_field(4, "cargo"@, Type::Object(893728943), false)
        .with_field(2287312, "docker"@, Type::Object(213792873), false)
        .with_field(329873, "flat_article"@, Type::Object(298732), false)
        .with_field(734837, "tree_article"@, Type::Object(9823923), false)
}

fn post() -> (object_type: ObjectType)
    ensures
        object_type@ == post_view(),
{
    ObjectType::named("Post")
        .with_field(0, "title", Type::String, false)
        .with_field(1, "content", Type::String, false)
        .with_field(2, "author", Type::Object(27092), true)
        .with_field(3, "comments", Type::Object(5528), true)
        .with_field(4, "cargo", Type::Object(893728943), false)
        .with_field(2287312, "docker", Type::Object(213792873), false)
        .with_field(329873, "flat_article", Type::Object(298732), false)
        .with_field(734837, "tree_article", Type::Object(9823923), false)
}

/// The object type `Comment`.
pub open spec fn comment_view() -> ObjectTypeView {
    ObjectTypeView::named("Comment"@)
        .with_field(0, "content"@, Type::String, false)
        .with_field(1, "things"@, Type::Int, false)
}

fn comment() -> (object_type: ObjectType)
    ensures
        object_type@ == comment_view(),
{
    ObjectType::named("Comment")
        .with_field(0, "content", Type::String, false)
        .with_field(1, "things", Type::Int, false)
}

/// The schema of the documents that the editor works on: posts with their
/// comments and authors, a Cargo manifest, a Dockerfile, and two forms of
/// article.
pub open spec fn catalogue() -> SchemaView {
    SchemaView::rooted(2325)
        .with_type(893728943, cargo_manifest_view())
        .with_type(87839159, package_view())
        .with_type(7218972, dependency_view())
        .with_type(213792873, dockerfile_view())
        .with_type(28973111, dockerfile_command_view())
        .with_type(29187312, dockerfile_from_view())
        .with_type(273819273, dockerfile_run_view())
        .with_type(87123897, dockerfile_run_network_view())
        .with_type(27092, user_view())
        .with_type(298732, flat_article_view())
        .with_type(28398, flat_article_block_view())
        .with_type(9823923, tree_article_view())
        .with_type(8734289, tree_article_section_view())
        .with_type(93847373, tree_article_block_view())
        .with_type(2325, post_view())
        .with_type(5528, comment_view())
}

/// The identifiers of the object types of the catalogue.
pub open spec fn catalogue_ids() -> Set<u32> {
    Set::empty()
        .insert(893728943u32)
        .insert(87839159u32)
        .insert(7218972u32)
        .insert(213792873u32)
        .insert(28973111u32)
        .insert(29187312u32)
        .insert(273819273u32)
        .insert(87123897u32)
        .insert(27092u32)
        .insert(298732u32)
        .insert(28398u32)
        .insert(9823923u32)
        .insert(8734289u32)
        .insert(93847373u32)
        .insert(2325u32)
        .insert(5528u32)
}

proof fn lemma_cargo_manifest_targets()
    ensures
        forall|f: u32|
            #[trigger] cargo_manifest_view().fields.contains_key(f) ==> (cargo_manifest_view().fields[f].type_ matches Type::Object(
                target,
            ) ==> catalogue_ids().contains(target)),
{
}

proof fn lemma_package_targets()
    ensures
        forall|f: u32|
            #[trigger] package_view().fields.contains_key(f) ==> (package_view().fields[f].type_ matches Type::Object(
                target,
            ) ==> catalogue_ids().contains(target)),
{
}

proof fn lemma_dependency_targets()
    ensures
        forall|f: u32|
            #[trigger] dependency_view().fields.contains_key(f) ==> (dependency_view().fields[f].type_ matches Type::Object(
                target,
            ) ==> catalogue_ids().contains(target)),
{
}

proof fn lemma_dockerfile_targets()
    ensures
        forall|f: u32|
            #[trigger] dockerfile_view().fields.contains_key(f) ==> (dockerfile_view().fields[f].type_ matches Type::Object(
                target,
            ) ==> catalogue_ids().contains(target)),
{
}

proof fn lemma_dockerfile_command_targets()
    ensures
        forall|f: u32|
            #[trigger] dockerfile_command_view().fields.contains_key(f) ==> (dockerfile_command_view().fields[f].type_ matches Type::Object(
                target,
            ) ==> catalogue_ids().contains(target)),
{
}

proof fn lemma_dockerfile_from_targets()
    ensures
        forall|f: u32|
            #[trigger] dockerfile_from_view().fields.contains_key(f) ==> (dockerfile_from_view().fields[f].type_ matches Type::Object(
                target,
            ) ==> catalogue_ids().contains(target)),
{
}

proof fn lemma_dockerfile_run_targets()
    ensures
        forall|f: u32|
            #[trigger] dockerfile_run_view().fields.contains_key(f) ==> (dockerfile_run_view().fields[f].type_ matches Type::Object(
                target,
            ) ==> catalogue_ids().contains(target)),
{
}

proof fn lemma_dockerfile_run_network_targets()
    ensures
        forall|f: u32|
            #[trigger] dockerfile_run_network_view().fields.contains_key(f) ==> (dockerfile_run_network_view().fields[f].type_ matches Type::Object(
                target,
            ) ==> catalogue_ids().contains(target)),
{
}

proof fn lemma_user_targets()
    ensures
        forall|f: u32|
            #[trigger] user_view().fields.contains_key(f) ==> (user_view().fields[f].type_ matches Type::Object(
                target,
            ) ==> catalogue_ids().contains(target)),
{
}

proof fn lemma_flat_article_targets()
    ensures
        forall|f: u32|
            #[trigger] flat_article_view().fields.contains_key(f) ==> (flat_article_view().fields[f].type_ matches Type::Object(
                target,
            ) ==> catalogue_ids().contains(target)),
{
}

proof fn lemma_flat_article_block_targets()
    ensures
        forall|f: u32|
            #[trigger] flat_article_block_view().fields.contains_key(f) ==> (flat_article_block_view().fields[f].type_ matches Type::Object(
                target,
            ) ==> catalogue_ids().contains(target)),
{
}

proof fn lemma_tree_article_targets()
    ensures
        forall|f: u32|
            #[trigger] tree_article_view().fields.contains_key(f) ==> (tree_article_view().fields[f].type_ matches Type::Object(
                target,
            ) ==> catalogue_ids().contains(target)),
{
}

proof fn lemma_tree_article_section_targets()
    ensures
        forall|f: u32|
            #[trigger] tree_article_section_view().fields.contains_key(f) ==> (tree_article_section_view().fields[f].type_ matches Type::Object(
                target,
            ) ==> catalogue_ids().contains(target)),
{
}

proof fn lemma_tree_article_block_targets()
    ensures
        forall|f: u32|
            #[trigger] tree_article_block_view().fields.contains_key(f) ==> (tree_article_block_view().fields[f].type_ matches Type::Object(
                target,
            ) ==> catalogue_ids().contains(target)),
{
}

proof fn lemma_post_targets()
    ensures
        forall|f: u32|
            #[trigger] post_view().fields.contains_key(f) ==> (post_view().fields[f].type_ matches Type::Object(
                target,
            ) ==> catalogue_ids().contains(target)),
{
}

proof fn lemma_comment_targets()
    ensures
        forall|f: u32|
            #[trigger] comment_view().fields.contains_key(f) ==> (comment_view().fields[f].type_ matches Type::Object(
                target,
            ) ==> catalogue_ids().contains(target)),
{
}

/// Every object type that the catalogue names exists in it.
pub proof fn lemma_catalogue_closed()
    ensures
        catalogue().object_types.dom() == catalogue_ids(),
        catalogue().closed(),
{
    assert(catalogue().object_types.dom() =~= catalogue_ids());
    lemma_cargo_manifest_targets();
    lemma_package_targets();
    lemma_dependency_targets();
    lemma_dockerfile_targets();
    lemma_dockerfile_command_targets();
    lemma_dockerfile_from_targets();
    lemma_dockerfile_run_targets();
    lemma_dockerfile_run_network_targets();
    lemma_user_targets();
    lemma_flat_article_targets();
    lemma_flat_article_block_targets();
    lemma_tree_article_targets();
    lemma_tree_article_section_targets();
    lemma_tree_article_block_targets();
    lemma_post_targets();
    lemma_comment_targets();
}

/// The schema of the documents that the editor works on.
pub fn create_schema() -> (schema: Schema)
    ensures
        schema@ == catalogue(),
        schema@.closed(),
{
    proof {
        lemma_catalogue_closed();
    }
    Schema::rooted(2325)
        .with_type(893728943, cargo_manifest())
        .with_type(87839159, package())
        .with_type(7218972, dependency())
        .with_type(213792873, dockerfile())
        .with_type(28973111, dockerfile_command())
        .with_type(29187312, dockerfile_from())
        .with_type(273819273, dockerfile_run())
        .with_type(87123897, dockerfile_run_network())
        .with_type(27092, user())
        .with_type(298732, flat_article())
        .with_type(28398, flat_article_block())
        .with_type(9823923, tree_article())
        .with_type(8734289, tree_article_section())
        .with_type(93847373, tree_article_block())
        .with_type(2325, post())
        .with_type(5528, comment())
}

} // verus!
