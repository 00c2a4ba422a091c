use js_watcher::parser::{
    parse_css_import_statement, parse_deps, parse_esm_statement, parse_lazy_esm_statement,
    parse_require_statement, ImportDep, ParseConditions,
};

#[test]
fn esm_statement() {
    // single quotes
    {
        let path = parse_esm_statement("import * as foo from 'foo.js'").unwrap();
        assert_eq!(path, vec![ImportDep::ESM("foo.js".to_string())]);
    }
    // double quotes
    {
        let path = parse_esm_statement(r#"import * as foo from "foo.js""#).unwrap();
        assert_eq!(path, vec![ImportDep::ESM("foo.js".to_string())]);
    }
    // named import
    {
        let path = parse_esm_statement("import { foo } from 'foo.js'").unwrap();
        assert_eq!(path, vec![ImportDep::ESM("foo.js".to_string())]);
    }
    // default export
    {
        let path = parse_esm_statement("import foo from 'foo.js'").unwrap();
        assert_eq!(path, vec![ImportDep::ESM("foo.js".to_string())]);
    }
    // unnamed
    {
        let path = parse_esm_statement("import 'foo.js'").unwrap();
        assert_eq!(path, vec![ImportDep::ESM("foo.js".to_string())]);
    }
}

#[test]
fn lazy_esm_statement() {
    {
        let path = parse_lazy_esm_statement("import('foo.js')").unwrap();
        assert_eq!(path, vec![ImportDep::ESM("foo.js".to_string())]);
    }
    // handle whitespaces
    {
        let path = parse_lazy_esm_statement("import ( 'foo.js' )").unwrap();
        assert_eq!(path, vec![ImportDep::ESM("foo.js".to_string())]);
    }
    // parser expects a whole and complete import statement
    {
        assert_eq!(true, parse_lazy_esm_statement("import('foo.js").is_none());
    }
}

#[test]
fn require_statement() {
    {
        let path = parse_require_statement("require('foo.js')").unwrap();
        assert_eq!(path, vec![ImportDep::REQUIRE("foo.js".to_string())]);
    }
    // handle whitespaces
    {
        let path = parse_require_statement("require ( 'foo.js' )").unwrap();
        assert_eq!(path, vec![ImportDep::REQUIRE("foo.js".to_string())]);
    }
    // parser expects a whole and complete import statement
    {
        assert_eq!(true, parse_require_statement("require('foo.js").is_none());
    }
}

#[test]
fn one_css_import() {
    {
        let paths = parse_css_import_statement("@import 'foo.css'").unwrap();
        assert_eq!(paths, vec![ImportDep::CSS("./foo.css".to_string())]);
    }
    // url
    {
        let paths = parse_css_import_statement("@import url('foo.css')").unwrap();
        assert_eq!(paths, vec![ImportDep::CSS("./foo.css".to_string())]);
    }
    // multiple
    {
        let paths = parse_css_import_statement(r#"@import 'foo.css', "../bar.css""#).unwrap();
        assert_eq!(
            paths,
            vec![
                ImportDep::CSS("./foo.css".to_string()),
                ImportDep::CSS("../bar.css".to_string())
            ]
        );
    }
    // with noise
    {
        let paths = parse_css_import_statement(r#"@import "common.css" screen;"#).unwrap();
        assert_eq!(paths, vec![ImportDep::CSS("./common.css".to_string())]);
    }
}

#[test]
fn test_parse_all() {
    {
        let res = parse_deps(
            r#"require('before.js');
        blahblah
        import foo from 'foo.js'
        blabhlah
        require('bar.js')
        blahblah
        import { foo2 } from 'foo2.js'
        import './foo3.js';
        blahblah
        require('baz.js');
        blah
        import("foo3.js")
        blah
        @import "style.css", "style2.scss"
        blahblah
        require('end.js')
      "#,
            ParseConditions { esm: true, require: true, lazy_esm: true, css: true },
        );

        assert_eq!(
            res,
            vec![
                ImportDep::REQUIRE("before.js".to_string()),
                ImportDep::ESM("foo.js".to_string()),
                ImportDep::REQUIRE("bar.js".to_string()),
                ImportDep::ESM("foo2.js".to_string()),
                ImportDep::ESM("./foo3.js".to_string()),
                ImportDep::REQUIRE("baz.js".to_string()),
                ImportDep::ESM("foo3.js".to_string()),
                ImportDep::CSS("./style.css".to_string()),
                ImportDep::CSS("./style2.scss".to_string()),
                ImportDep::REQUIRE("end.js".to_string())
            ]
        );
    }

    {
        let res = parse_deps(
            r#"import * as B from './b.js';
        import { FILE_1 } from './file1.js';
        import file2 from './file2.js';
        import './file3.js';
        import { FILE_4 } from './file4';
        import { FILE_5 } from './file5';
      "#,
            ParseConditions { esm: true, require: false, lazy_esm: false, css: false },
        );

        assert_eq!(
            res,
            vec![
                ImportDep::ESM("./b.js".to_string()),
                ImportDep::ESM("./file1.js".to_string()),
                ImportDep::ESM("./file2.js".to_string()),
                ImportDep::ESM("./file3.js".to_string()),
                ImportDep::ESM("./file4".to_string()),
                ImportDep::ESM("./file5".to_string()),
            ]
        );
    }
}

#[test]
fn reexport_statement_is_scanned() {
    let res = parse_deps(
        "export { a } from './re.js';\n",
        ParseConditions { esm: true, require: false, lazy_esm: false, css: false },
    );
    assert_eq!(res, vec![ImportDep::ESM("./re.js".to_string())]);
}

#[test]
fn disabled_families_are_skipped() {
    let res = parse_deps(
        "require('a.js')\nimport './b.js'\n",
        ParseConditions { esm: false, require: false, lazy_esm: false, css: false },
    );
    assert_eq!(res, Vec::<ImportDep>::new());
}
