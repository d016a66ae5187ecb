//! Questions about the Roblox API.
use biskit_mcp::roblox::metadata::parse_metadata;
use biskit_mcp::errors::render;
use biskit_mcp::roblox::api::{
    documentation_file_name, strip_markup, Answer, ApiQuery, ApiResult, MemberSummary, RawDoc, RobloxApi,
};
use biskit_mcp::roblox::api_definitions::{parse_definitions, MemberKind};
use biskit_mcp::text_map::TextMap;

const DEFINITIONS: &str = r#"--#METADATA#{"CREATABLE_INSTANCES": ["Part"], "SERVICES": ["TweenService"]}
declare extern type Instance extends Object with
	@[deprecated {use = "Instance:Clone"}]
		function clone(self): Instance
	ChildAdded: RBXScriptSignal<Instance>
	Name: string
	function Clone(self): Instance
	function Destroy(self): nil
end

declare extern type TweenService extends Instance with
	function Create(self, instance: Instance, tweenInfo: TweenInfo, propertyTable: { [string]: any }): Tween
end

declare extern type EnumEasingStyle extends EnumItem with end
declare extern type EnumEasingStyle_INTERNAL extends Enum with
	Linear: EnumEasingStyle
	Sine: EnumEasingStyle
	function GetEnumItems(self): { EnumEasingStyle }
end
"#;

const DEPRECATIONS: &str = r#"declare extern type Instance extends Object with
	@[deprecated {use = "MetaBreakpoint:Remove"}]
		function remove(self): nil
	@[deprecated {use = "Nowhere:Vanish"}]
		function vanish(self): nil
	@deprecated
		function Remove(self): nil
end

declare extern type MetaBreakpoint extends Instance with end

declare extern type Humanoid extends Instance with
	@[deprecated {use = "Animator:LoadAnimation"}]
		function loadAnimation(self, animation: Animation): AnimationTrack
end

declare extern type Animator extends Instance with
	function LoadAnimation(self, animation: Animation): AnimationTrack
end
"#;

fn api() -> RobloxApi {
    let (types, services, creatable) = parse_definitions(DEFINITIONS);
    RobloxApi {
        types,
        services,
        creatable,
        docs: TextMap::new(),
        security_level: "PluginSecurity".to_string(),
    }
}

fn query(text: &str) -> ApiQuery<'_> {
    ApiQuery {
        query: text,
        member_filter: None,
        include_inherited: false,
        include_documentation: false,
        max_members: 100,
    }
}

#[test]
fn members_are_classified_by_what_they_are() {
    let api = api();
    let ApiResult {
        answer: Answer::Class(class),
        ..
    } = api.answer(&query("Instance")).unwrap()
    else {
        panic!("expected a class answer");
    };

    let kinds: Vec<(&str, MemberKind)> = class
        .members
        .iter()
        .map(|member| (member.name.as_str(), member.kind))
        .collect();
    assert!(kinds.contains(&("ChildAdded", MemberKind::Event)));
    assert!(kinds.contains(&("Name", MemberKind::Property)));
    assert!(kinds.contains(&("Destroy", MemberKind::Method)));
    assert_eq!(class.extends.as_deref(), Some("Object"));
}

#[test]
fn a_capped_member_list_counts_what_it_handed_back() {
    let api = api();
    let mut asked = query("Instance");
    asked.max_members = 2;

    let ApiResult {
        answer: Answer::Class(class),
        ..
    } = api.answer(&asked).unwrap()
    else {
        panic!("expected a class answer");
    };

    assert_eq!(class.members.len(), 2);
    assert_eq!(
        class.returned_count, 2,
        "returned_count is how many came back, not how many were cut from"
    );
    assert_eq!(class.matched_count, Some(5));
    assert!(class.truncated);
    assert_eq!(class.total_member_count, None, "no filter narrowed them");
}

#[test]
fn a_capped_member_list_samples_the_members_worth_reading() {
    let api = api();
    let mut asked = query("TweenService");
    asked.include_inherited = true;
    asked.max_members = 2;

    let ApiResult {
        answer: Answer::Class(class),
        ..
    } = api.answer(&asked).unwrap()
    else {
        panic!("expected a class answer");
    };

    let names: Vec<&str> = class
        .members
        .iter()
        .map(|member| member.name.as_str())
        .collect();
    assert_eq!(
        names[0], "Create",
        "the class's own member comes before anything inherited"
    );
    assert!(
        !names.contains(&"clone"),
        "a deprecated inherited alias is the last thing a sample should spend a slot on: \
         {names:?}"
    );
}

#[test]
fn a_filter_and_a_cap_report_three_separate_counts() {
    let api = api();
    let mut asked = query("Instance");
    asked.member_filter = Some("n");
    asked.max_members = 1;

    let ApiResult {
        answer: Answer::Class(class),
        ..
    } = api.answer(&asked).unwrap()
    else {
        panic!("expected a class answer");
    };

    assert_eq!(class.returned_count, 1);
    assert_eq!(
        class.matched_count,
        Some(3),
        "clone, Name and Clone spell an n"
    );
    assert_eq!(class.total_member_count, Some(5));
}

#[test]
fn an_uncapped_answer_reports_one_count_and_no_others() {
    let api = api();
    let ApiResult {
        answer: Answer::Class(class),
        ..
    } = api.answer(&query("Instance")).unwrap()
    else {
        panic!("expected a class answer");
    };

    assert_eq!(class.returned_count, class.members.len());
    assert_eq!(class.matched_count, None);
    assert_eq!(class.total_member_count, None);
    assert!(!class.truncated);
}

#[test]
fn a_deprecation_carries_what_replaced_it() {
    let api = api();
    let ApiResult {
        answer: Answer::Member(member),
        ..
    } = api.answer(&query("Instance:clone")).unwrap()
    else {
        panic!("expected a member answer");
    };
    assert!(member.deprecated);
    assert_eq!(member.deprecated_use.as_deref(), Some("Instance:Clone"));
}

fn deprecated_use_of(query_text: &str) -> (bool, Option<String>) {
    let (types, services, creatable) = parse_definitions(DEPRECATIONS);
    let api = RobloxApi {
        types,
        services,
        creatable,
        docs: TextMap::new(),
        security_level: "PluginSecurity".to_string(),
    };
    let ApiResult {
        answer: Answer::Member(member),
        ..
    } = api.answer(&query(query_text)).unwrap()
    else {
        panic!("expected a member answer");
    };
    (member.deprecated, member.deprecated_use)
}

#[test]
fn a_replacement_the_named_class_does_not_declare_is_re_resolved() {
    let (deprecated, replacement) = deprecated_use_of("Instance:remove");
    assert!(deprecated);
    assert_eq!(
        replacement.as_deref(),
        Some("Instance:Remove"),
        "MetaBreakpoint inherits Remove rather than declaring it, so it is not the replacement"
    );
}

#[test]
fn a_replacement_nothing_in_the_ancestry_declares_is_dropped() {
    let (deprecated, replacement) = deprecated_use_of("Instance:vanish");
    assert!(deprecated, "the deprecation itself still stands");
    assert_eq!(
        replacement, None,
        "a replacement that cannot be resolved is absent rather than guessed"
    );
}

#[test]
fn a_replacement_on_an_unrelated_class_that_declares_it_survives() {
    let (deprecated, replacement) = deprecated_use_of("Humanoid:loadAnimation");
    assert!(deprecated);
    assert_eq!(replacement.as_deref(), Some("Animator:LoadAnimation"));
}

#[test]
fn only_the_member_under_an_attribute_is_marked_deprecated() {
    let api = api();
    let ApiResult {
        answer: Answer::Member(member),
        ..
    } = api.answer(&query("Instance.Name")).unwrap()
    else {
        panic!("expected a member answer");
    };
    assert!(!member.deprecated);
}

#[test]
fn a_member_is_found_on_an_ancestor_and_says_where_it_came_from() {
    let api = api();
    let ApiResult {
        answer: Answer::Member(member),
        ..
    } = api.answer(&query("TweenService:Destroy")).unwrap()
    else {
        panic!("expected a member answer");
    };
    assert_eq!(member.class, "TweenService");
    assert_eq!(member.declared_by.as_deref(), Some("Instance"));
}

#[test]
fn a_service_is_reported_as_one() {
    let api = api();
    let ApiResult {
        answer: Answer::Class(class),
        ..
    } = api.answer(&query("TweenService")).unwrap()
    else {
        panic!("expected a class answer");
    };
    assert!(class.is_service);
    assert!(!class.creatable);
    assert_eq!(
        class.inherits,
        vec!["Instance".to_string(), "Object".to_string()]
    );
}

#[test]
fn inherited_members_are_off_by_default_and_labelled_when_asked_for() {
    let api = api();
    let ApiResult {
        answer: Answer::Class(class),
        ..
    } = api.answer(&query("TweenService")).unwrap()
    else {
        panic!("expected a class answer");
    };
    assert_eq!(class.members.len(), 1);

    let ApiResult {
        answer: Answer::Class(inherited),
        ..
    } = api
        .answer(&ApiQuery {
            include_inherited: true,
            ..query("TweenService")
        })
        .unwrap()
    else {
        panic!("expected a class answer");
    };
    let destroy = inherited
        .members
        .iter()
        .find(|member| member.name == "Destroy")
        .expect("Destroy is inherited from Instance");
    assert_eq!(destroy.inherited_from.as_deref(), Some("Instance"));
}

#[test]
fn a_member_a_subclass_redeclares_is_reported_once_from_the_subclass() {
    const REDECLARED: &str = r#"declare extern type Instance extends Object with
	Name: string
	function Destroy(self): nil
end

declare extern type TweenService extends Instance with
	Name: string
end
"#;
    let (types, services, creatable) = parse_definitions(REDECLARED);
    let api = RobloxApi {
        types,
        services,
        creatable,
        docs: TextMap::new(),
        security_level: "PluginSecurity".to_string(),
    };

    let ApiResult {
        answer: Answer::Class(class),
        ..
    } = api
        .answer(&ApiQuery {
            include_inherited: true,
            ..query("TweenService")
        })
        .unwrap()
    else {
        panic!("expected a class answer");
    };

    let named: Vec<&MemberSummary> = class
        .members
        .iter()
        .filter(|member| member.name == "Name")
        .collect();
    assert_eq!(named.len(), 1, "the inherited copy should be shadowed");
    assert_eq!(named[0].inherited_from, None);
    assert_eq!(class.returned_count, class.members.len());
}

#[test]
fn a_cyclic_extends_chain_stops_rather_than_spinning() {
    const CYCLIC: &str = r#"declare extern type Foo extends Bar with
	Alpha: string
end

declare extern type Bar extends Foo with
	Beta: string
end
"#;
    let (types, services, creatable) = parse_definitions(CYCLIC);
    let api = RobloxApi {
        types,
        services,
        creatable,
        docs: TextMap::new(),
        security_level: "PluginSecurity".to_string(),
    };

    assert!(api.answer(&query("Foo.Beta")).is_ok());
    assert!(
        api.answer(&query("Foo.Missing")).is_err(),
        "a member on no type in the cycle has to terminate"
    );
}

#[test]
fn an_enum_lists_its_items_and_not_its_methods() {
    let api = api();
    let ApiResult {
        answer: Answer::Enum(found),
        ..
    } = api.answer(&query("Enum.EasingStyle")).unwrap()
    else {
        panic!("expected an enum answer");
    };
    assert_eq!(found.name, "Enum.EasingStyle");
    let names: Vec<&str> = found.items.iter().map(|item| item.name.as_str()).collect();
    assert_eq!(names, vec!["Linear", "Sine"]);
}

#[test]
fn an_enum_item_carries_its_documentation_link_whether_or_not_docs_were_asked_for() {
    let (types, services, creatable) = parse_definitions(DEFINITIONS);
    let mut docs = TextMap::new();
    docs.insert(
        "@roblox/enum/EasingStyle.Linear".to_string(),
        RawDoc {
            documentation: "Moves at a constant speed.".to_string(),
            learn_more_link: Some(
                "https://create.roblox.com/docs/reference/engine/enums/EasingStyle#Linear"
                    .to_string(),
            ),
            params: Vec::new(),
            returns: Vec::new(),
        },
    );
    let api = RobloxApi {
        types,
        services,
        creatable,
        docs,
        security_level: "PluginSecurity".to_string(),
    };

    let ApiResult {
        answer: Answer::Enum(found),
        ..
    } = api.answer(&query("Enum.EasingStyle")).unwrap()
    else {
        panic!("expected an enum answer");
    };

    let linear = found
        .items
        .iter()
        .find(|item| item.name == "Linear")
        .expect("Linear is in the fixture");
    assert!(linear.documentation.is_none(), "docs were not asked for");
    assert_eq!(
        linear.learn_more_link.as_deref(),
        Some("https://create.roblox.com/docs/reference/engine/enums/EasingStyle#Linear")
    );

    let sine = found
        .items
        .iter()
        .find(|item| item.name == "Sine")
        .expect("Sine is in the fixture");
    assert_eq!(sine.learn_more_link, None);
}

#[test]
fn naming_one_enum_item_narrows_the_answer_to_it() {
    let api = api();
    let ApiResult {
        answer: Answer::Enum(found),
        ..
    } = api.answer(&query("Enum.EasingStyle.Linear")).unwrap()
    else {
        panic!("expected an enum answer");
    };
    assert_eq!(found.items.len(), 1);
    assert_eq!(found.items[0].name, "Linear");
}

#[test]
fn an_unknown_name_suggests_the_ones_that_exist() {
    let api = api();
    let error = api.answer(&query("tweenservice")).unwrap_err();
    let rendered = render("query_roblox_api", &error);
    assert!(rendered.contains("nothing named tweenservice"));
    assert!(rendered.contains("TweenService"));
}

#[test]
fn markup_is_stripped_from_documentation() {
    assert_eq!(
        strip_markup("Creates a new <code>Tween</code> for you."),
        "Creates a new Tween for you."
    );
}

#[test]
fn a_filter_looks_at_names_whatever_their_case() {
    let api = api();
    let mut asked = query("Instance");
    asked.member_filter = Some("DESTROY");
    let ApiResult {
        answer: Answer::Class(class),
        ..
    } = api.answer(&asked).unwrap()
    else {
        panic!("expected a class answer");
    };
    assert_eq!(class.members.len(), 1);
    assert_eq!(class.members[0].declaration, "function Destroy(self): nil");
}

#[test]
fn documentation_is_told_without_its_markup() {
    let (types, services, creatable) = parse_definitions(DEFINITIONS);
    let mut docs = TextMap::new();
    docs.insert(
        "@roblox/globaltype/Instance.Destroy".to_string(),
        RawDoc {
            documentation: "<b>Ends</b> it.".to_string(),
            learn_more_link: None,
            params: Vec::new(),
            returns: Vec::new(),
        },
    );
    let api = RobloxApi {
        types,
        services,
        creatable,
        docs,
        security_level: "PluginSecurity".to_string(),
    };
    let mut asked = query("Instance:Destroy");
    asked.include_documentation = true;
    let result = api.answer(&asked).unwrap();
    assert_eq!(result.security_level, "PluginSecurity");
    let Answer::Member(member) = result.answer else {
        panic!("expected a member answer");
    };
    assert_eq!(member.documentation.as_deref(), Some("Ends it."));
    assert_eq!(
        documentation_file_name("https://x.y/docs/en-us.json"),
        "en-us.json"
    );
}

#[test]
fn a_question_that_asks_nothing_or_of_no_member_is_refused() {
    let api = api();
    assert!(api.answer(&query("  ")).is_err());
    assert!(api.answer(&query("Instance:Nothing")).is_err());
    assert!(api.answer(&query("Enum.Nothing")).is_err());
    let Answer::Enum(found) = api.answer(&query("Enum.EasingStyle.Nothing")).unwrap().answer
    else {
        panic!("expected an enum answer");
    };
    assert!(found.items.is_empty());
}

#[test]
fn metadata_is_two_lists_of_texts_or_nothing() {
    let none: (Vec<String>, Vec<String>) = (Vec::new(), Vec::new());
    let one = |text: &str| vec![text.to_string()];

    assert_eq!(
        parse_metadata(r#" {"x": [{"SERVICES": 1}, "}"], "SERVICES" : ["A"] } "#),
        (one("A"), Vec::new())
    );
    assert_eq!(parse_metadata(r#"{"SERVICES": ["A"], "SERVICES": ["B"]}"#), none);
    assert_eq!(parse_metadata(r#"{"SERVICES": ["A"], "SERVICE\u0053": ["B"]}"#), none);
    assert_eq!(parse_metadata(r#"{"SERVICES": ["A", 1]}"#), none);
    assert_eq!(parse_metadata(r#"{"SERVICES": ["A"]"#), none);
    assert_eq!(
        parse_metadata(r#"{"huge": 1e999, "CREATABLE_INSTANCES": ["B"]}"#),
        (Vec::new(), one("B"))
    );
    assert_eq!(parse_metadata(r#"[["A"], ["B"]]"#), (one("A"), one("B")));
    assert_eq!(parse_metadata(r#"[["A"]]"#), (one("A"), Vec::new()));
    assert_eq!(parse_metadata("[[], [], []]"), none);
    assert_eq!(parse_metadata("null"), none);
}
